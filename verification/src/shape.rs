//! Syntactic comparison of declarations up to the identities of their
//! binders, collecting the names that the expected side refers to. This is
//! how a fast path is tied to the exact library definition it replaces.
use crate::book::{AdtDecl, DefDecl};
use crate::term::{Binder, LetBinding, Term, TermRef};
use crate::text::str_eq;
use vstd::prelude::*;

verus! {

/// What an actual binder identity stands for on the expected side: the
/// latest pair that binds it.
pub open spec fn bound(b: Seq<(usize, usize)>, id: usize) -> Option<usize>
    decreases b.len(),
{
    if b.len() == 0 {
        None
    } else if b.last().0 == id {
        Some(b.last().1)
    } else {
        bound(b.drop_last(), id)
    }
}

/// Two lists of names read alike.
pub open spec fn same_names(a: Seq<String>, b: Seq<String>) -> bool {
    a.len() == b.len() && forall|k: int| 0 <= k < a.len() ==> (#[trigger] a[k])@ == b[k]@
}

/// The binder pairs of two lists of let bindings, position by position.
pub open spec fn binding_pairs(a: Seq<LetBinding>, e: Seq<LetBinding>) -> Seq<(usize, usize)> {
    Seq::new(a.len(), |k: int| (a[k].id, e[k].id))
}

/// `a` is `e` up to binder identities, where `b` pairs the binders in scope.
/// Only the syntax is compared: no normalisation, and holes never match.
pub open spec fn alike(a: Term, e: Term, b: Seq<(usize, usize)>) -> bool
    decreases a,
{
    match a {
        Term::Var { id: ai, .. } => e matches Term::Var { id: ei, .. } && bound(b, ai) == Some(ei),
        Term::Ref(an) => e matches Term::Ref(en) && an@ == en@,
        Term::Typ(x) => e matches Term::Typ(y) && alike(*x, *y, b),
        Term::Qua(q) => e matches Term::Qua(r) && q == r,
        Term::Qnt => e is Qnt,
        Term::Efq => e is Efq,
        Term::Rfl => e is Rfl,
        Term::App(x1, x2) => e matches Term::App(y1, y2) && alike(*x1, *y1, b) && alike(*x2, *y2, b),
        Term::Ann(x1, x2) => e matches Term::Ann(y1, y2) && alike(*x1, *y1, b) && alike(*x2, *y2, b),
        Term::Min(x1, x2) => e matches Term::Min(y1, y2) && alike(*x1, *y1, b) && alike(*x2, *y2, b),
        Term::Ctr { name, args } => e matches Term::Ctr { name: en, args: eargs } && name@ == en@
            && args@.len() == eargs@.len() && forall|k: int|
            0 <= k < args@.len() ==> alike(*#[trigger] args@[k], *eargs@[k], b),
        Term::Adt { name, args, excluded } => e matches Term::Adt { name: en, args: eargs, excluded: ex }
            && name@ == en@ && same_names(excluded@, ex@) && args@.len() == eargs@.len() && forall|k: int|
            0 <= k < args@.len() ==> alike(*#[trigger] args@[k], *eargs@[k], b),
        Term::All { quant, id, domain, body, .. } => e matches Term::All { quant: q2, id: i2, domain: d2, body: b2, .. }
            && quant == q2 && alike(*domain, *d2, b) && alike(*body, *b2, b.push((id, i2))),
        Term::Lam { id, body, .. } => e matches Term::Lam { id: i2, body: b2, .. } && alike(*body, *b2, b.push((id, i2))),
        Term::Mat { constructor, arm, fallback } => e matches Term::Mat { constructor: c2, arm: a2, fallback: f2 }
            && constructor@ == c2@ && alike(*arm, *a2, b) && alike(*fallback, *f2, b),
        Term::Let { bindings, body } => e matches Term::Let { bindings: eb, body: ebody } && bindings@.len()
            == eb@.len() && (forall|k: int|
            0 <= k < bindings@.len() ==> (#[trigger] bindings@[k]).quant == eb@[k].quant && alike(
                *bindings@[k].value,
                *eb@[k].value,
                b,
            )) && alike(*body, *ebody, b + binding_pairs(bindings@, eb@)),
        Term::Eql { left, right, ty } => e matches Term::Eql { left: l2, right: r2, ty: t2 } && alike(*left, *l2, b)
            && alike(*right, *r2, b) && alike(*ty, *t2, b),
        Term::Rwt { evidence, motive, body } => e matches Term::Rwt { evidence: v2, motive: m2, body: b2 }
            && alike(*evidence, *v2, b) && alike(*motive, *m2, b) && alike(*body, *b2, b),
        _ => false,
    }
}

/// The names that references and datatype types of `t` mention.
pub open spec fn refs(t: Term) -> Set<Seq<char>>
    decreases t,
{
    match t {
        Term::Ref(n) => set![n@],
        Term::Adt { name, args, .. } => set![name@] + refs_all(args@),
        Term::Typ(x) => refs(*x),
        Term::App(x, y) => refs(*x) + refs(*y),
        Term::Ann(x, y) => refs(*x) + refs(*y),
        Term::Min(x, y) => refs(*x) + refs(*y),
        Term::All { domain, body, .. } => refs(*domain) + refs(*body),
        Term::Lam { body, .. } => refs(*body),
        Term::Ctr { args, .. } => refs_all(args@),
        Term::Mat { arm, fallback, .. } => refs(*arm) + refs(*fallback),
        Term::Eql { left, right, ty } => refs(*left) + refs(*right) + refs(*ty),
        Term::Rwt { evidence, motive, body } => refs(*evidence) + refs(*motive) + refs(*body),
        Term::Let { bindings, body } => refs_values(bindings@) + refs(*body),
        _ => Set::empty(),
    }
}

pub open spec fn refs_all(ts: Seq<TermRef>) -> Set<Seq<char>>
    decreases ts,
{
    if ts.len() == 0 {
        Set::empty()
    } else {
        refs_all(ts.drop_last()) + refs(*ts.last())
    }
}

pub open spec fn refs_values(bs: Seq<LetBinding>) -> Set<Seq<char>>
    decreases bs,
{
    if bs.len() == 0 {
        Set::empty()
    } else {
        refs_values(bs.drop_last()) + refs(*bs.last().value)
    }
}

/// The names a list of strings holds.
pub open spec fn held(v: Seq<String>) -> Set<Seq<char>> {
    Set::new(|n: Seq<char>| exists|k: int| 0 <= k < v.len() && (#[trigger] v[k])@ == n)
}

/// A comparison in progress: the binder pairs in scope, and the names the
/// expected side referred to so far.
pub struct Shape {
    pub bindings: Vec<(usize, usize)>,
    pub references: Vec<String>,
}

impl Shape {
    pub fn new() -> (r: Shape)
        ensures
            r.bindings@.len() == 0,
            held(r.references@) == Set::<Seq<char>>::empty(),
    {
        let r = Shape { bindings: Vec::new(), references: Vec::new() };
        proof {
            assert(held(r.references@) =~= Set::<Seq<char>>::empty());
        }
        r
    }

    /// Record that the expected side refers to `name`.
    fn note(&mut self, name: &String)
        ensures
            final(self).bindings == old(self).bindings,
            held(final(self).references@) == held(old(self).references@).insert(name@),
    {
        let mut k: usize = 0;
        while k < self.references.len()
            invariant
                k <= self.references@.len(),
                forall|j: int| 0 <= j < k ==> (#[trigger] self.references@[j])@ != name@,
            decreases self.references@.len() - k,
        {
            if str_eq(self.references[k].as_str(), name.as_str()) {
                proof {
                    assert(held(self.references@) =~= held(self.references@).insert(name@));
                }
                return;
            }
            k = k + 1;
        }
        let ghost before = self.references@;
        self.references.push(name.clone());
        proof {
            assert(held(self.references@) =~= held(before).insert(name@)) by {
                assert forall|n: Seq<char>| held(self.references@).contains(n) implies held(before).insert(name@).contains(n) by {
                    let k = choose|k: int| 0 <= k < self.references@.len() && (#[trigger] self.references@[k])@ == n;
                    if k < before.len() {
                        assert(before[k] == self.references@[k]);
                    }
                }
                assert forall|n: Seq<char>| held(before).insert(name@).contains(n) implies held(self.references@).contains(n) by {
                    if n == name@ {
                        assert(self.references@[before.len() as int]@ == n);
                    } else {
                        let k = choose|k: int| 0 <= k < before.len() && (#[trigger] before[k])@ == n;
                        assert(self.references@[k] == before[k]);
                    }
                }
            }
        }
    }

    /// The state of a comparison after comparing `e`: the binders are as they
    /// were, no name was forgotten, every new name is one `e` mentions, and
    /// a match mentions them all.
    pub open spec fn compared(&self, old: &Shape, e: Term, r: bool) -> bool {
        &&& self.bindings@ == old.bindings@
        &&& held(old.references@).subset_of(held(self.references@))
        &&& held(self.references@).subset_of(held(old.references@) + refs(e))
        &&& r ==> refs(e).subset_of(held(self.references@))
    }

    /// Compare two lists of terms position by position.
    pub fn terms(&mut self, actual: &Vec<TermRef>, expected: &Vec<TermRef>) -> (r: bool)
        ensures
            r == (actual@.len() == expected@.len() && forall|k: int|
                0 <= k < actual@.len() ==> alike(*#[trigger] actual@[k], *expected@[k], old(self).bindings@)),
            final(self).bindings@ == old(self).bindings@,
            held(old(self).references@).subset_of(held(final(self).references@)),
            held(final(self).references@).subset_of(held(old(self).references@) + refs_all(expected@)),
            r ==> refs_all(expected@).subset_of(held(final(self).references@)),
        decreases actual@, 0nat,
    {
        if actual.len() != expected.len() {
            return false;
        }
        let mut k: usize = 0;
        while k < actual.len()
            invariant
                actual@.len() == expected@.len(),
                k <= actual@.len(),
                self.bindings@ == old(self).bindings@,
                forall|j: int| 0 <= j < k ==> alike(*#[trigger] actual@[j], *expected@[j], old(self).bindings@),
                held(old(self).references@).subset_of(held(self.references@)),
                held(self.references@).subset_of(held(old(self).references@) + refs_all(expected@.take(k as int))),
                refs_all(expected@.take(k as int)).subset_of(held(self.references@)),
            decreases actual@.len() - k,
        {
            proof {
                assert(decreases_to!(actual@ => actual@[k as int]));
                assert(expected@.take(k + 1).drop_last() =~= expected@.take(k as int));
                assert(expected@.take(k + 1).last() == expected@[k as int]);
            }
            let ghost before = self.references@;
            if !self.term(&actual[k], &expected[k]) {
                proof {
                    lemma_refs_all_take(expected@, k + 1);
                }
                return false;
            }
            k = k + 1;
        }
        proof {
            assert(expected@.take(k as int) =~= expected@);
        }
        true
    }

    /// Compare `actual` with `expected` up to binder identities.
    #[verifier::loop_isolation(false)]
    pub fn term(&mut self, actual: &TermRef, expected: &TermRef) -> (r: bool)
        ensures
            r == alike(**actual, **expected, old(self).bindings@),
            final(self).compared(old(self), **expected, r),
        decreases **actual, 1nat,
    {
        match (&**actual, &**expected) {
            (Term::Var { id: ai, .. }, Term::Var { id: ei, .. }) => {
                let mut k: usize = self.bindings.len();
                proof {
                    assert(self.bindings@.take(k as int) =~= self.bindings@);
                }
                while k > 0
                    invariant
                        k <= self.bindings@.len(),
                        bound(self.bindings@, *ai) == bound(self.bindings@.take(k as int), *ai),
                    decreases k,
                {
                    proof {
                        assert(self.bindings@.take(k as int).drop_last() =~= self.bindings@.take(k - 1));
                    }
                    if self.bindings[k - 1].0 == *ai {
                        proof {
                            assert(held(self.references@) =~= held(old(self).references@));
                            assert(refs(**expected) =~= Set::<Seq<char>>::empty());
                        }
                        let found = self.bindings[k - 1].1 == *ei;
                        assert(self.compared(old(self), **expected, found));
                        return found;
                    }
                    k = k - 1;
                }
                proof {
                    assert(held(self.references@) =~= held(old(self).references@));
                    assert(refs(**expected) =~= Set::<Seq<char>>::empty());
                    assert(self.bindings@.take(0) =~= Seq::<(usize, usize)>::empty());
                }
                false
            },
            (Term::Ref(an), Term::Ref(en)) => {
                proof {
                    assert(refs(**expected) == set![en@]);
                }
                self.note(en);
                proof {
                    assert(held(self.references@).subset_of(held(old(self).references@) + refs(**expected)));
                }
                str_eq(an.as_str(), en.as_str())
            },
            (Term::Typ(x), Term::Typ(y)) => {
                proof {
                    assert(refs(**expected) == refs(**y));
                }
                self.term(x, y)
            },
            (Term::Qua(q), Term::Qua(r)) => {
                proof {
                    assert(refs(**expected) =~= Set::<Seq<char>>::empty());
                }
                *q == *r
            },
            (Term::Qnt, Term::Qnt) => {
                proof {
                    assert(refs(**expected) =~= Set::<Seq<char>>::empty());
                }
                true
            },
            (Term::Efq, Term::Efq) => {
                proof {
                    assert(refs(**expected) =~= Set::<Seq<char>>::empty());
                }
                true
            },
            (Term::Rfl, Term::Rfl) => {
                proof {
                    assert(refs(**expected) =~= Set::<Seq<char>>::empty());
                }
                true
            },
            (Term::App(x1, x2), Term::App(y1, y2)) => {
                proof {
                    assert(refs(**expected) == refs(**y1) + refs(**y2));
                }
                let ghost mid0 = self.references@;
                if !self.term(x1, y1) {
                    return false;
                }
                let r2 = self.term(x2, y2);
                proof {
                    assert(held(self.references@).subset_of(held(old(self).references@) + refs(**expected)));
                }
                r2
            },
            (Term::Ann(x1, x2), Term::Ann(y1, y2)) => {
                proof {
                    assert(refs(**expected) == refs(**y1) + refs(**y2));
                }
                let ghost mid0 = self.references@;
                if !self.term(x1, y1) {
                    return false;
                }
                let r2 = self.term(x2, y2);
                proof {
                    assert(held(self.references@).subset_of(held(old(self).references@) + refs(**expected)));
                }
                r2
            },
            (Term::Min(x1, x2), Term::Min(y1, y2)) => {
                proof {
                    assert(refs(**expected) == refs(**y1) + refs(**y2));
                }
                let ghost mid0 = self.references@;
                if !self.term(x1, y1) {
                    return false;
                }
                let r2 = self.term(x2, y2);
                proof {
                    assert(held(self.references@).subset_of(held(old(self).references@) + refs(**expected)));
                }
                r2
            },
            (Term::Ctr { name: an, args: aargs }, Term::Ctr { name: en, args: eargs }) => {
                proof {
                    assert(refs(**expected) == refs_all(eargs@));
                }
                if !str_eq(an.as_str(), en.as_str()) {
                    proof {
                        assert(held(self.references@) =~= held(old(self).references@));
                    }
                    return false;
                }
                self.terms(aargs, eargs)
            },
            (Term::Adt { name: an, args: aargs, excluded: ax }, Term::Adt { name: en, args: eargs, excluded: ex }) => {
                proof {
                    assert(refs(**expected) == set![en@] + refs_all(eargs@));
                }
                self.note(en);
                if !str_eq(an.as_str(), en.as_str()) || !same_name_lists(ax, ex) {
                    return false;
                }
                self.terms(aargs, eargs)
            },
            (Term::All { quant: aq, id: ai, domain: ad, body: ab, .. }, Term::All { quant: eq, id: ei, domain: ed, body: eb, .. }) => {
                proof {
                    assert(refs(**expected) == refs(**ed) + refs(**eb));
                }
                if *aq != *eq {
                    proof {
                        assert(held(self.references@) =~= held(old(self).references@));
                    }
                    return false;
                }
                if !self.term(ad, ed) {
                    return false;
                }
                let ghost mid = self.references@;
                self.bindings.push((*ai, *ei));
                let result = self.term(ab, eb);
                self.bindings.pop();
                proof {
                    assert(self.bindings@ =~= old(self).bindings@);
                    assert(held(self.references@).subset_of(held(old(self).references@) + refs(**expected)));
                }
                result
            },
            (Term::Lam { id: ai, body: ab, .. }, Term::Lam { id: ei, body: eb, .. }) => {
                proof {
                    assert(refs(**expected) == refs(**eb));
                }
                self.bindings.push((*ai, *ei));
                let result = self.term(ab, eb);
                self.bindings.pop();
                proof {
                    assert(self.bindings@ =~= old(self).bindings@);
                }
                result
            },
            (Term::Mat { constructor: ac, arm: aa, fallback: af }, Term::Mat { constructor: ec, arm: ea, fallback: ef }) => {
                proof {
                    assert(refs(**expected) == refs(**ea) + refs(**ef));
                }
                if !str_eq(ac.as_str(), ec.as_str()) {
                    proof {
                        assert(held(self.references@) =~= held(old(self).references@));
                    }
                    return false;
                }
                if !self.term(aa, ea) {
                    return false;
                }
                let r2 = self.term(af, ef);
                proof {
                    assert(held(self.references@).subset_of(held(old(self).references@) + refs(**expected)));
                }
                r2
            },
            (Term::Let { bindings: abs, body: ab }, Term::Let { bindings: ebs, body: eb }) => {
                proof {
                    assert(refs(**expected) == refs_values(ebs@) + refs(**eb));
                }
                if abs.len() != ebs.len() {
                    proof {
                        assert(held(self.references@) =~= held(old(self).references@));
                    }
                    return false;
                }
                let mut k: usize = 0;
                while k < abs.len()
                    invariant
                        k <= abs@.len(),
                        abs@.len() == ebs@.len(),
                        self.bindings@ == old(self).bindings@,
                        forall|j: int| 0 <= j < k ==> (#[trigger] abs@[j]).quant == ebs@[j].quant && alike(*abs@[j].value, *ebs@[j].value, old(self).bindings@),
                        held(old(self).references@).subset_of(held(self.references@)),
                        held(self.references@).subset_of(held(old(self).references@) + refs_values(ebs@.take(k as int))),
                        refs_values(ebs@.take(k as int)).subset_of(held(self.references@)),
                    decreases abs@.len() - k,
                {
                    proof {
                        assert(decreases_to!(abs@ => abs@[k as int]));
                        assert(decreases_to!(abs@[k as int] => abs@[k as int].value));
                        assert(ebs@.take(k + 1).drop_last() =~= ebs@.take(k as int));
                    }
                    if abs[k].quant != ebs[k].quant || !self.term(&abs[k].value, &ebs[k].value) {
                        proof {
                            lemma_refs_values_take(ebs@, k + 1);
                            assert(self.compared(old(self), **expected, false));
                        }
                        return false;
                    }
                    k = k + 1;
                }
                proof {
                    assert(ebs@.take(k as int) =~= ebs@);
                }
                let start = self.bindings.len();
                let ghost refs_mid = self.references@;
                let mut j: usize = 0;
                while j < abs.len()
                    invariant
                        self.references@ == refs_mid,
                        j <= abs@.len(),
                        abs@.len() == ebs@.len(),
                        start == old(self).bindings@.len(),
                        self.bindings@ == old(self).bindings@ + binding_pairs(abs@, ebs@).take(j as int),
                    decreases abs@.len() - j,
                {
                    self.bindings.push((abs[j].id, ebs[j].id));
                    proof {
                        assert(binding_pairs(abs@, ebs@).take(j + 1) =~= binding_pairs(abs@, ebs@).take(j as int).push((abs@[j as int].id, ebs@[j as int].id)));
                    }
                    j = j + 1;
                }
                proof {
                    assert(binding_pairs(abs@, ebs@).take(j as int) =~= binding_pairs(abs@, ebs@));
                }
                let result = self.term(ab, eb);
                self.bindings.truncate(start);
                proof {
                    assert(self.bindings@ =~= old(self).bindings@);
                    assert(self.compared(old(self), **expected, result));
                }
                result
            },
            (Term::Eql { left: al, right: ar, ty: at }, Term::Eql { left: el, right: er, ty: et }) => {
                proof {
                    assert(refs(**expected) == refs(**el) + refs(**er) + refs(**et));
                }
                if !self.term(al, el) {
                    return false;
                }
                if !self.term(ar, er) {
                    proof {
                        assert(held(self.references@).subset_of(held(old(self).references@) + refs(**expected)));
                    }
                    return false;
                }
                let r3 = self.term(at, et);
                proof {
                    assert(held(self.references@).subset_of(held(old(self).references@) + refs(**expected)));
                }
                r3
            },
            (Term::Rwt { evidence: av, motive: am, body: ab }, Term::Rwt { evidence: ev, motive: em, body: eb }) => {
                proof {
                    assert(refs(**expected) == refs(**ev) + refs(**em) + refs(**eb));
                }
                if !self.term(av, ev) {
                    return false;
                }
                if !self.term(am, em) {
                    proof {
                        assert(held(self.references@).subset_of(held(old(self).references@) + refs(**expected)));
                    }
                    return false;
                }
                let r3 = self.term(ab, eb);
                proof {
                    assert(held(self.references@).subset_of(held(old(self).references@) + refs(**expected)));
                }
                r3
            },
            _ => {
                proof {
                    assert(held(self.references@) =~= held(old(self).references@));
                }
                false
            },
        }
    }
}


/// The names the types of a telescope mention.
pub open spec fn telescope_refs(bs: Seq<Binder>) -> Set<Seq<char>>
    decreases bs.len(),
{
    if bs.len() == 0 {
        Set::empty()
    } else {
        telescope_refs(bs.drop_last()) + refs(*bs.last().ty)
    }
}

proof fn lemma_telescope_refs_take(e: Seq<Binder>, k: int)
    requires
        0 <= k <= e.len(),
    ensures
        telescope_refs(e.take(k)).subset_of(telescope_refs(e)),
    decreases e.len(),
{
    if k < e.len() {
        lemma_telescope_refs_take(e.drop_last(), k);
        assert(e.drop_last().take(k) =~= e.take(k));
    } else {
        assert(e.take(k) =~= e);
    }
}

/// The names a definition mentions: its parameters, type and body.
pub open spec fn def_refs(d: DefDecl) -> Set<Seq<char>> {
    telescope_refs(d.parameters@) + refs(*d.ty) + match d.body {
        Some(b) => refs(*b),
        None => Set::empty(),
    }
}

/// The names the field telescopes of some constructors mention.
pub open spec fn constructor_refs(cs: Seq<crate::book::ConstructorDecl>) -> Set<Seq<char>>
    decreases cs.len(),
{
    if cs.len() == 0 {
        Set::empty()
    } else {
        constructor_refs(cs.drop_last()) + telescope_refs(cs.last().fields@)
    }
}

proof fn lemma_constructor_refs_take(cs: Seq<crate::book::ConstructorDecl>, k: int)
    requires
        0 <= k <= cs.len(),
    ensures
        constructor_refs(cs.take(k)).subset_of(constructor_refs(cs)),
    decreases cs.len(),
{
    if k < cs.len() {
        lemma_constructor_refs_take(cs.drop_last(), k);
        assert(cs.drop_last().take(k) =~= cs.take(k));
    } else {
        assert(cs.take(k) =~= cs);
    }
}

/// The names a datatype mentions: its parameters, kind and constructors.
pub open spec fn adt_refs(d: AdtDecl) -> Set<Seq<char>> {
    telescope_refs(d.parameters@) + refs(*d.kind) + constructor_refs(d.constructors@)
}

/// The binder pairs of two telescopes, position by position.
pub open spec fn param_pairs(a: Seq<Binder>, e: Seq<Binder>) -> Seq<(usize, usize)> {
    Seq::new(a.len(), |k: int| (a[k].id, e[k].id))
}

/// Two telescopes alike under `b`: each binder's type is compared with the
/// binders before it in scope.
pub open spec fn telescope_alike(a: Seq<Binder>, e: Seq<Binder>, b: Seq<(usize, usize)>) -> bool {
    a.len() == e.len() && forall|k: int|
        0 <= k < a.len() ==> (#[trigger] a[k]).quant == e[k].quant && alike(*a[k].ty, *e[k].ty, b + param_pairs(a, e).take(k))
}

/// A definition is the expected one up to binder identities: same name,
/// neither foreign nor unsafe, alike parameters, type and body.
pub open spec fn def_alike(a: DefDecl, e: DefDecl) -> bool {
    &&& a.name@ == e.name@
    &&& !a.foreign
    &&& !a.unsafe_
    &&& telescope_alike(a.parameters@, e.parameters@, Seq::empty())
    &&& alike(*a.ty, *e.ty, Seq::empty())
    &&& a.body matches Some(x) && e.body matches Some(y) && alike(*x, *y, Seq::empty())
}

/// A datatype is the expected one up to binder identities: same name,
/// alike parameters and kind, and alike constructors in the same order.
pub open spec fn adt_alike(a: AdtDecl, e: AdtDecl) -> bool {
    &&& a.name@ == e.name@
    &&& a.constructors@.len() == e.constructors@.len()
    &&& telescope_alike(a.parameters@, e.parameters@, Seq::empty())
    &&& alike(*a.kind, *e.kind, param_pairs(a.parameters@, e.parameters@))
    &&& forall|c: int| 0 <= c < a.constructors@.len() ==> (#[trigger] a.constructors@[c]).name@ == e.constructors@[c].name@
        && telescope_alike(a.constructors@[c].fields@, e.constructors@[c].fields@, param_pairs(a.parameters@, e.parameters@))
}

impl Shape {
    /// Compare two telescopes, leaving their binders in scope on success.
    fn telescope(&mut self, a: &Vec<Binder>, e: &Vec<Binder>) -> (r: bool)
        ensures
            r == telescope_alike(a@, e@, old(self).bindings@),
            r ==> final(self).bindings@ == old(self).bindings@ + param_pairs(a@, e@),
            held(old(self).references@).subset_of(held(final(self).references@)),
            held(final(self).references@).subset_of(held(old(self).references@) + telescope_refs(e@)),
            r ==> telescope_refs(e@).subset_of(held(final(self).references@)),
    {
        if a.len() != e.len() {
            proof {
                assert(held(self.references@) =~= held(old(self).references@));
            }
            return false;
        }
        let mut k: usize = 0;
        while k < a.len()
            invariant
                a@.len() == e@.len(),
                k <= a@.len(),
                self.bindings@ == old(self).bindings@ + param_pairs(a@, e@).take(k as int),
                forall|j: int| 0 <= j < k ==> (#[trigger] a@[j]).quant == e@[j].quant && alike(*a@[j].ty, *e@[j].ty, old(self).bindings@ + param_pairs(a@, e@).take(j)),
                held(old(self).references@).subset_of(held(self.references@)),
                held(self.references@).subset_of(held(old(self).references@) + telescope_refs(e@.take(k as int))),
                telescope_refs(e@.take(k as int)).subset_of(held(self.references@)),
            decreases a@.len() - k,
        {
            proof {
                assert(e@.take(k + 1).drop_last() =~= e@.take(k as int));
                lemma_telescope_refs_take(e@, k + 1);
            }
            if a[k].quant != e[k].quant {
                return false;
            }
            if !self.term(&a[k].ty, &e[k].ty) {
                return false;
            }
            self.bindings.push((a[k].id, e[k].id));
            proof {
                assert(param_pairs(a@, e@).take(k + 1) =~= param_pairs(a@, e@).take(k as int).push((a@[k as int].id, e@[k as int].id)));
            }
            k = k + 1;
        }
        proof {
            assert(param_pairs(a@, e@).take(k as int) =~= param_pairs(a@, e@));
            assert(e@.take(k as int) =~= e@);
        }
        true
    }

    /// Whether `actual` is the expected definition up to binder identities.
    pub fn definition(&mut self, actual: &DefDecl, expected: &DefDecl) -> (r: bool)
        requires
            old(self).bindings@.len() == 0,
        ensures
            r == def_alike(*actual, *expected),
            held(old(self).references@).subset_of(held(final(self).references@)),
            held(final(self).references@).subset_of(held(old(self).references@) + def_refs(*expected)),
            r ==> def_refs(*expected).subset_of(held(final(self).references@)),
    {
        proof {
            assert(old(self).bindings@ =~= Seq::<(usize, usize)>::empty());
        }
        if !str_eq(actual.name.as_str(), expected.name.as_str()) || actual.foreign || actual.unsafe_ {
            proof {
                assert(held(self.references@) =~= held(old(self).references@));
            }
            return false;
        }
        if !self.telescope(&actual.parameters, &expected.parameters) {
            return false;
        }
        self.bindings.clear();
        if !self.term(&actual.ty, &expected.ty) {
            return false;
        }
        match (&actual.body, &expected.body) {
            (Some(a), Some(b)) => self.term(a, b),
            _ => false,
        }
    }

    /// Whether `actual` is the expected datatype up to binder identities.
    pub fn datatype(&mut self, actual: &AdtDecl, expected: &AdtDecl) -> (r: bool)
        requires
            old(self).bindings@.len() == 0,
        ensures
            r == adt_alike(*actual, *expected),
            held(old(self).references@).subset_of(held(final(self).references@)),
            held(final(self).references@).subset_of(held(old(self).references@) + adt_refs(*expected)),
            r ==> adt_refs(*expected).subset_of(held(final(self).references@)),
    {
        proof {
            assert(old(self).bindings@ + param_pairs(actual.parameters@, expected.parameters@) =~= param_pairs(actual.parameters@, expected.parameters@));
        }
        if !str_eq(actual.name.as_str(), expected.name.as_str()) || actual.constructors.len() != expected.constructors.len() {
            proof {
                assert(held(self.references@) =~= held(old(self).references@));
            }
            return false;
        }
        if !self.telescope(&actual.parameters, &expected.parameters) {
            return false;
        }
        let ghost params = self.bindings@;
        if !self.term(&actual.kind, &expected.kind) {
            return false;
        }
        let n = actual.parameters.len();
        let mut c: usize = 0;
        while c < actual.constructors.len()
            invariant
                c <= actual.constructors@.len(),
                actual.constructors@.len() == expected.constructors@.len(),
                n == actual.parameters@.len(),
                params == param_pairs(actual.parameters@, expected.parameters@),
                params.len() == n,
                self.bindings@.len() >= n,
                self.bindings@.take(n as int) == params,
                forall|j: int| 0 <= j < c ==> (#[trigger] actual.constructors@[j]).name@ == expected.constructors@[j].name@
                    && telescope_alike(actual.constructors@[j].fields@, expected.constructors@[j].fields@, params),
                held(old(self).references@).subset_of(held(self.references@)),
                held(self.references@).subset_of(held(old(self).references@) + telescope_refs(expected.parameters@)
                    + refs(*expected.kind) + constructor_refs(expected.constructors@.take(c as int))),
                telescope_refs(expected.parameters@).subset_of(held(self.references@)),
                refs(*expected.kind).subset_of(held(self.references@)),
                constructor_refs(expected.constructors@.take(c as int)).subset_of(held(self.references@)),
            decreases actual.constructors@.len() - c,
        {
            proof {
                assert(expected.constructors@.take(c + 1).drop_last() =~= expected.constructors@.take(c as int));
                lemma_constructor_refs_take(expected.constructors@, c + 1);
            }
            let a = &actual.constructors[c];
            let b = &expected.constructors[c];
            if !str_eq(a.name.as_str(), b.name.as_str()) || a.fields.len() != b.fields.len() {
                return false;
            }
            self.bindings.truncate(n);
            proof {
                assert(self.bindings@ =~= params);
            }
            if !self.telescope(&a.fields, &b.fields) {
                return false;
            }
            proof {
                assert(self.bindings@.take(n as int) =~= params);
            }
            c = c + 1;
        }
        proof {
            assert(expected.constructors@.take(c as int) =~= expected.constructors@);
        }
        true
    }
}

/// Two lists of names that read alike.
pub fn same_name_lists(a: &Vec<String>, b: &Vec<String>) -> (r: bool)
    ensures
        r == same_names(a@, b@),
{
    if a.len() != b.len() {
        return false;
    }
    let mut k: usize = 0;
    while k < a.len()
        invariant
            a@.len() == b@.len(),
            k <= a@.len(),
            forall|j: int| 0 <= j < k ==> (#[trigger] a@[j])@ == b@[j]@,
        decreases a@.len() - k,
    {
        if !str_eq(a[k].as_str(), b[k].as_str()) {
            return false;
        }
        k = k + 1;
    }
    true
}

proof fn lemma_refs_all_take(ts: Seq<TermRef>, k: int)
    requires
        0 <= k <= ts.len(),
    ensures
        refs_all(ts.take(k)).subset_of(refs_all(ts)),
    decreases ts.len(),
{
    if k < ts.len() {
        assert(ts.drop_last().take(k) =~= ts.take(k));
        lemma_refs_all_take(ts.drop_last(), k);
    } else {
        assert(ts.take(k) =~= ts);
    }
}

proof fn lemma_refs_values_take(bs: Seq<LetBinding>, k: int)
    requires
        0 <= k <= bs.len(),
    ensures
        refs_values(bs.take(k)).subset_of(refs_values(bs)),
    decreases bs.len(),
{
    if k < bs.len() {
        assert(bs.drop_last().take(k) =~= bs.take(k));
        lemma_refs_values_take(bs.drop_last(), k);
    } else {
        assert(bs.take(k) =~= bs);
    }
}

} // verus!
