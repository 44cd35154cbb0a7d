//! Core term syntax shared by the parser, pattern compiler and runtime.
//!
//! Terms are immutable trees whose children are reference counted, so a
//! subterm can be shared by several parents without copying it.
use std::rc::Rc;
use vstd::prelude::*;
use crate::text::str_eq;
use crate::text::starts_with_char;
use crate::text::concat;

verus! {

/// How often a binder may be used: erased, affine, or freely duplicated.
#[derive(Clone, Copy, Debug, PartialEq, Eq, Structural)]
pub enum Quant {
    Erased,
    Lone,
    Many,
}

pub type TermRef = Rc<Term>;

/// One simultaneous binding of a `let`.
pub struct LetBinding {
    pub quant: Quant,
    pub name: String,
    pub id: usize,
    pub value: TermRef,
}

/// A named, quantified binder with its type.
pub struct Binder {
    pub quant: Quant,
    pub name: String,
    pub id: usize,
    pub ty: TermRef,
}

pub enum Term {
    Var { name: String, id: usize },
    Ref(String),
    GpuRef(String),
    Typ(TermRef),
    Qnt,
    Qua(Quant),
    Min(TermRef, TermRef),
    All { quant: Quant, name: String, id: usize, domain: TermRef, body: TermRef },
    Lam { name: String, id: usize, body: TermRef },
    App(TermRef, TermRef),
    Adt { name: String, args: Vec<TermRef>, excluded: Vec<String> },
    Ctr { name: String, args: Vec<TermRef> },
    Mat { constructor: String, arm: TermRef, fallback: TermRef },
    Efq,
    Eql { left: TermRef, right: TermRef, ty: TermRef },
    Rfl,
    Rwt { evidence: TermRef, motive: TermRef, body: TermRef },
    Hole(String),
    Let { bindings: Vec<LetBinding>, body: TermRef },
    Ann(TermRef, TermRef),
}

/// Wrap a term node in a shared reference.
pub fn term(t: Term) -> (r: TermRef)
    ensures
        *r == t,
{
    Rc::new(t)
}

/// Share a term without copying it.
pub fn share(t: &TermRef) -> (r: TermRef)
    ensures
        r == *t,
{
    Rc::clone(t)
}

/// `Rc::ptr_eq`: whether two handles point to the same allocation, in which
/// case they hold the same term. Which allocations coincide is not stated.
#[verifier::external_body]
pub fn same_node(a: &TermRef, b: &TermRef) -> (r: bool)
    ensures
        r ==> *a == *b,
{
    Rc::ptr_eq(a, b)
}

// ---------------------------------------------------------------------------
// Height of a term: the number of edges on its longest root-to-leaf path.
// ---------------------------------------------------------------------------

pub open spec fn max(a: nat, b: nat) -> nat {
    if a >= b { a } else { b }
}

/// The height of a term, counting one edge from a node to each of its children.
pub open spec fn height(t: Term) -> nat
    decreases t,
{
    match t {
        Term::Typ(c) => 1 + height(*c),
        Term::Min(a, b) => 1 + max(height(*a), height(*b)),
        Term::App(a, b) => 1 + max(height(*a), height(*b)),
        Term::Ann(a, b) => 1 + max(height(*a), height(*b)),
        Term::All { domain, body, .. } => 1 + max(height(*domain), height(*body)),
        Term::Lam { body, .. } => 1 + height(*body),
        Term::Ctr { args, .. } => if args@.len() == 0 { 0 } else { 1 + heights(args@) },
        Term::Adt { args, .. } => if args@.len() == 0 { 0 } else { 1 + heights(args@) },
        Term::Mat { arm, fallback, .. } => 1 + max(height(*arm), height(*fallback)),
        Term::Eql { left, right, ty } => 1 + max(height(*left), max(height(*right), height(*ty))),
        Term::Rwt { evidence, motive, body } => 1 + max(
            height(*evidence),
            max(height(*motive), height(*body)),
        ),
        Term::Let { bindings, body } => 1 + max(binding_heights(bindings@), height(*body)),
        _ => 0,
    }
}

/// The largest height among a sequence of terms (zero when empty).
pub open spec fn heights(ts: Seq<TermRef>) -> nat
    decreases ts,
{
    if ts.len() == 0 {
        0
    } else {
        max(heights(ts.drop_last()), height(*ts.last()))
    }
}

/// The largest height among the values of a sequence of let bindings.
pub open spec fn binding_heights(bs: Seq<LetBinding>) -> nat
    decreases bs,
{
    if bs.len() == 0 {
        0
    } else {
        max(binding_heights(bs.drop_last()), height(*bs.last().value))
    }
}

#[verifier::loop_isolation(false)]
fn within_all(ts: &Vec<TermRef>, limit: usize) -> (r: bool)
    ensures
        r == (heights(ts@) <= limit),
    decreases ts@, 0nat,
{
    let mut i: usize = 0;
    while i < ts.len()
        invariant
            i <= ts.len(),
            heights(ts@.take(i as int)) <= limit,
        decreases ts.len() - i,
    {
        proof {
            assert(decreases_to!(ts@ => ts@[i as int]));
        }
        if !within(&ts[i], limit) {
            proof {
                lemma_heights_take(ts@, i as int);
            }
            return false;
        }
        proof {
            assert(ts@.take(i + 1).drop_last() =~= ts@.take(i as int));
        }
        i = i + 1;
    }
    proof {
        assert(ts@.take(i as int) =~= ts@);
    }
    true
}

proof fn lemma_heights_take(ts: Seq<TermRef>, i: int)
    requires
        0 <= i < ts.len(),
    ensures
        heights(ts) >= height(*ts[i]),
    decreases ts.len(),
{
    if i < ts.len() - 1 {
        lemma_heights_take(ts.drop_last(), i);
    }
}

proof fn lemma_binding_heights_take(bs: Seq<LetBinding>, i: int)
    requires
        0 <= i < bs.len(),
    ensures
        binding_heights(bs) >= height(*bs[i].value),
    decreases bs.len(),
{
    if i < bs.len() - 1 {
        lemma_binding_heights_take(bs.drop_last(), i);
    }
}

#[verifier::loop_isolation(false)]
fn within(t: &Term, limit: usize) -> (r: bool)
    ensures
        r == (height(*t) <= limit),
    decreases *t, 1nat,
{
    match t {
        Term::Typ(c) => limit > 0 && within(c, limit - 1),
        Term::Min(a, b) | Term::App(a, b) | Term::Ann(a, b) => limit > 0 && within(a, limit - 1)
            && within(b, limit - 1),
        Term::All { domain, body, .. } => limit > 0 && within(domain, limit - 1) && within(
            body,
            limit - 1,
        ),
        Term::Lam { body, .. } => limit > 0 && within(body, limit - 1),
        Term::Ctr { args, .. } | Term::Adt { args, .. } => args.len() == 0 || (limit > 0
            && within_all(args, limit - 1)),
        Term::Mat { arm, fallback, .. } => limit > 0 && within(arm, limit - 1) && within(
            fallback,
            limit - 1,
        ),
        Term::Eql { left, right, ty } => limit > 0 && within(left, limit - 1) && within(
            right,
            limit - 1,
        ) && within(ty, limit - 1),
        Term::Rwt { evidence, motive, body } => limit > 0 && within(evidence, limit - 1)
            && within(motive, limit - 1) && within(body, limit - 1),
        Term::Let { bindings, body } => {
            if limit == 0 {
                return false;
            }
            let mut i: usize = 0;
            while i < bindings.len()
                invariant
                    i <= bindings.len(),
                    limit > 0,
                    binding_heights(bindings@.take(i as int)) <= limit - 1,
                decreases bindings.len() - i,
            {
                proof {
                    assert(decreases_to!(bindings@ => bindings@[i as int]));
                    assert(decreases_to!(bindings@[i as int] => bindings@[i as int].value));
                }
                if !within(&bindings[i].value, limit - 1) {
                    proof {
                        lemma_binding_heights_take(bindings@, i as int);
                    }
                    return false;
                }
                proof {
                    assert(bindings@.take(i + 1).drop_last() =~= bindings@.take(i as int));
                }
                i = i + 1;
            }
            proof {
                assert(bindings@.take(i as int) =~= bindings@);
            }
            within(body, limit - 1)
        },
        _ => true,
    }
}

/// Whether no path from the root of `value` descends more than `limit` edges.
pub fn within_term_depth(value: &TermRef, limit: usize) -> (r: bool)
    ensures
        r == (height(**value) <= limit),
{
    within(value, limit)
}

// ---------------------------------------------------------------------------
// Application spines.
// ---------------------------------------------------------------------------

/// `head` applied to each argument in turn, left-associated.
pub open spec fn applied(head: Term, args: Seq<TermRef>) -> Term
    decreases args.len(),
{
    if args.len() == 0 {
        head
    } else {
        Term::App(Rc::new(applied(head, args.drop_last())), args.last())
    }
}

/// Apply `head` to `args` from left to right.
pub fn apply(head: TermRef, args: Vec<TermRef>) -> (r: TermRef)
    ensures
        *r == applied(*head, args@),
{
    let ghost h = head;
    let mut out = head;
    let mut i: usize = 0;
    while i < args.len()
        invariant
            i <= args.len(),
            *out == applied(*h, args@.take(i as int)),
        decreases args.len() - i,
    {
        proof {
            assert(args@.take(i + 1).drop_last() =~= args@.take(i as int));
        }
        out = term(Term::App(out, share(&args[i])));
        i = i + 1;
    }
    proof {
        assert(args@.take(i as int) =~= args@);
    }
    out
}

/// The datatype or definition name at the head of a type expression.
pub open spec fn spec_type_head(ty: Term) -> Option<String>
    decreases ty,
{
    match ty {
        Term::Ref(n) => Some(n),
        Term::Var { name, .. } => Some(name),
        Term::Adt { name, .. } => Some(name),
        Term::App(f, _) => spec_type_head(*f),
        _ => None,
    }
}

pub fn type_head(ty: &TermRef) -> (r: Option<String>)
    ensures
        r == spec_type_head(**ty),
    decreases **ty,
{
    match &**ty {
        Term::Ref(n) => Some(n.clone()),
        Term::Var { name, .. } => Some(name.clone()),
        Term::Adt { name, .. } => Some(name.clone()),
        Term::App(f, _) => type_head(f),
        _ => None,
    }
}

// ---------------------------------------------------------------------------
// Literal encodings: unary naturals and 32-bit words.
// ---------------------------------------------------------------------------

/// Whether `t` is a constructor application named `n` with exactly `arity` arguments.
pub open spec fn is_ctr(t: Term, n: Seq<char>, arity: nat) -> bool {
    t matches Term::Ctr { name, args } && name@ == n && args@.len() == arity
}

/// Whether `t` is the unary natural `n`: `n` nested `Succ` constructors around `Zero`.
pub open spec fn is_nat(t: Term, n: nat) -> bool
    decreases n,
{
    if n == 0 {
        is_ctr(t, "Zero"@, 0)
    } else {
        is_ctr(t, "Succ"@, 1) && is_nat(*t->Ctr_args@[0], (n - 1) as nat)
    }
}

/// A unary natural stands for one number only.
pub proof fn lemma_nat_unique(t: TermRef, a: nat, b: nat)
    requires
        is_nat(*t, a),
        is_nat(*t, b),
    ensures
        a == b,
    decreases a,
{
    if a > 0 && b > 0 {
        if let Term::Ctr { args, .. } = *t {
            lemma_nat_unique(args@[0], (a - 1) as nat, (b - 1) as nat);
        }
    }
}

/// Reading back a written natural: whatever `nat_value` may answer for the
/// term that `nat_term(count)` builds (by their contracts) is `count`.
pub proof fn law_nat_value_reads_back_nat_term(t: TermRef, count: u32, answer: Option<u32>)
    requires
        is_nat(*t, count as nat),
        answer matches Some(n) ==> is_nat(*t, n as nat),
        answer is None ==> forall|n: nat| n <= u32::MAX ==> !#[trigger] is_nat(*t, n),
    ensures
        answer == Some(count),
{
    if let Some(n) = answer {
        lemma_nat_unique(t, n as nat, count as nat);
    } else {
        assert(!is_nat(*t, count as nat));
    }
}

/// Whether `t` is the nullary constructor `True` or `False` for `b`.
pub open spec fn is_bool(t: Term, b: bool) -> bool {
    if b {
        is_ctr(t, "True"@, 0)
    } else {
        is_ctr(t, "False"@, 0)
    }
}

/// Bit `i` of `v`, counting from the least significant bit.
pub open spec fn bit(v: u32, i: nat) -> bool {
    (v >> i) & 1 == 1
}

/// Whether `t` is the word of bits `i..32` of `v`: `WCon` cells holding the
/// bits from least to most significant, closed by `WNil`.
pub open spec fn is_word(t: Term, v: u32, i: nat) -> bool
    decreases 32 - i,
{
    if i >= 32 {
        is_ctr(t, "WNil"@, 0)
    } else {
        is_ctr(t, "WCon"@, 2) && is_bool(*t->Ctr_args@[0], bit(v, i)) && is_word(
            *t->Ctr_args@[1],
            v,
            i + 1,
        )
    }
}

/// Whether `t` is the `U32` literal holding `v`.
pub open spec fn is_u32(t: Term, v: u32) -> bool {
    is_ctr(t, "U32"@, 1) && is_word(*t->Ctr_args@[0], v, 0)
}

/// A nullary or n-ary constructor node.
pub fn ctr(name: &str, args: Vec<TermRef>) -> (r: TermRef)
    ensures
        *r matches Term::Ctr { name: n, args: a } && n@ == name@ && a@ == args@,
{
    term(Term::Ctr { name: name.to_owned(), args })
}

/// The 32-bit word literal for `value`.
pub fn word_term(value: u32) -> (r: TermRef)
    ensures
        is_word(*r, value, 0),
{
    let mut out = ctr("WNil", Vec::new());
    let mut bit_index: u32 = 32;
    while bit_index > 0
        invariant
            bit_index <= 32,
            is_word(*out, value, bit_index as nat),
        decreases bit_index,
    {
        bit_index = bit_index - 1;
        let set = value & (1u32 << bit_index) != 0;
        proof {
            assert(set == bit(value, bit_index as nat)) by (bit_vector)
                requires
                    set == (value & (1u32 << bit_index) != 0),
                    bit_index < 32,
            ;
        }
        let head = if set {
            ctr("True", Vec::new())
        } else {
            ctr("False", Vec::new())
        };
        let mut args = Vec::new();
        args.push(head);
        args.push(out);
        out = ctr("WCon", args);
    }
    out
}

/// The `U32` literal for `value`.
pub fn u32_term(value: u32) -> (r: TermRef)
    ensures
        is_u32(*r, value),
{
    let mut args = Vec::new();
    args.push(word_term(value));
    ctr("U32", args)
}

/// The number of `Succ` layers of a unary natural literal that fits in `u32`.
pub fn nat_value(value: &TermRef) -> (r: Option<u32>)
    ensures
        r matches Some(n) ==> is_nat(**value, n as nat),
        r is None ==> forall|n: nat| n <= u32::MAX ==> !#[trigger] is_nat(**value, n),
{
    let mut current = value;
    let mut count: u32 = 0;
    loop
        invariant
            forall|n: nat| #[trigger] is_nat(**value, n) <==> n >= count && is_nat(**current, (n - count) as nat),
        decreases **current,
    {
        match &**current {
            Term::Ctr { name, args } => {
                if str_eq(name.as_str(), "Zero") && args.len() == 0 {
                    proof {
                        assert(is_nat(**current, 0));
                        assert(is_nat(**value, count as nat));
                    }
                    return Some(count);
                }
                if str_eq(name.as_str(), "Succ") && args.len() == 1 {
                    if count == u32::MAX {
                        proof {
                            assert forall|n: nat| n <= u32::MAX implies !#[trigger] is_nat(**value, n) by {
                                if is_nat(**value, n) {
                                    assert(n >= count);
                                    assert(n == count);
                                    assert(is_nat(**current, 0));
                                    assert("Zero"@ != "Succ"@) by {
                                        reveal_strlit("Zero");
                                        reveal_strlit("Succ");
                                    }
                                }
                            }
                        }
                        return None;
                    }
                    proof {
                        assert forall|n: nat| #[trigger] is_nat(**value, n) <==> n >= count + 1 && is_nat(*args@[0], (n - count - 1) as nat) by {
                            if is_nat(**value, n) {
                                assert(n >= count);
                                if n == count {
                                    assert(is_nat(**current, 0));
                                    assert("Zero"@ != "Succ"@) by {
                                        reveal_strlit("Zero");
                                        reveal_strlit("Succ");
                                    }
                                }
                            }
                            if n >= count + 1 && is_nat(*args@[0], (n - count - 1) as nat) {
                                assert(is_nat(**current, (n - count) as nat));
                            }
                        }
                        assert(decreases_to!(args@ => args@[0]));
                    }
                    current = &args[0];
                    count = count + 1;
                } else {
                    proof {
                        assert forall|n: nat| n <= u32::MAX implies !#[trigger] is_nat(**value, n) by {
                            if is_nat(**value, n) {
                                assert(is_nat(**current, (n - count) as nat));
                            }
                        }
                    }
                    return None;
                }
            },
            _ => {
                proof {
                    assert forall|n: nat| n <= u32::MAX implies !#[trigger] is_nat(**value, n) by {
                        if is_nat(**value, n) {
                            assert(is_nat(**current, (n - count) as nat));
                        }
                    }
                }
                return None;
            },
        }
    }
}

/// The unary natural literal with `count` successors.
pub fn nat_term(count: u32) -> (r: TermRef)
    ensures
        is_nat(*r, count as nat),
{
    let mut out = ctr("Zero", Vec::new());
    let mut i: u32 = 0;
    while i < count
        invariant
            i <= count,
            is_nat(*out, i as nat),
        decreases count - i,
    {
        let mut args = Vec::new();
        args.push(out);
        out = ctr("Succ", args);
        i = i + 1;
    }
    out
}

// ---------------------------------------------------------------------------
// Substitution of a bound variable.
// ---------------------------------------------------------------------------

/// `r` is `t` with every free occurrence of variable `id` replaced by `rep`.
/// A binder that rebinds `id` shadows it in its scope.
pub open spec fn subst_rel(t: Term, id: usize, rep: Term, r: Term) -> bool
    decreases t,
{
    match t {
        Term::Var { id: i, .. } => if i == id {
            r == rep
        } else {
            r == t
        },
        Term::Typ(c) => r matches Term::Typ(rc) && subst_rel(*c, id, rep, *rc),
        Term::Min(a, b) => r matches Term::Min(ra, rb) && subst_rel(*a, id, rep, *ra) && subst_rel(
            *b,
            id,
            rep,
            *rb,
        ),
        Term::App(a, b) => r matches Term::App(ra, rb) && subst_rel(*a, id, rep, *ra) && subst_rel(
            *b,
            id,
            rep,
            *rb,
        ),
        Term::Ann(a, b) => r matches Term::Ann(ra, rb) && subst_rel(*a, id, rep, *ra) && subst_rel(
            *b,
            id,
            rep,
            *rb,
        ),
        Term::All { quant, name, id: b, domain, body } => r matches Term::All {
            quant: rq,
            name: rn,
            id: rb,
            domain: rd,
            body: rbody,
        } && rq == quant && rn == name && rb == b && subst_rel(*domain, id, rep, *rd) && if b
            == id {
            rbody == body
        } else {
            subst_rel(*body, id, rep, *rbody)
        },
        Term::Lam { name, id: b, body } => if b == id {
            r == t
        } else {
            r matches Term::Lam { name: rn, id: rb, body: rbody } && rn == name && rb == b
                && subst_rel(*body, id, rep, *rbody)
        },
        Term::Ctr { name, args } => r matches Term::Ctr { name: rn, args: ra } && rn == name
            && ra@.len() == args@.len() && forall|k: int|
            0 <= k < args@.len() ==> subst_rel(*#[trigger] args@[k], id, rep, *ra@[k]),
        Term::Adt { name, args, excluded } => r matches Term::Adt {
            name: rn,
            args: ra,
            excluded: rx,
        } && rn == name && rx@ == excluded@ && ra@.len() == args@.len() && forall|k: int|
            0 <= k < args@.len() ==> subst_rel(*#[trigger] args@[k], id, rep, *ra@[k]),
        Term::Mat { constructor, arm, fallback } => r matches Term::Mat {
            constructor: rc,
            arm: ra,
            fallback: rf,
        } && rc == constructor && subst_rel(*arm, id, rep, *ra) && subst_rel(*fallback, id, rep, *rf),
        Term::Eql { left, right, ty } => r matches Term::Eql { left: rl, right: rr, ty: rt }
            && subst_rel(*left, id, rep, *rl) && subst_rel(*right, id, rep, *rr) && subst_rel(
            *ty,
            id,
            rep,
            *rt,
        ),
        Term::Rwt { evidence, motive, body } => r matches Term::Rwt {
            evidence: re,
            motive: rm,
            body: rb,
        } && subst_rel(*evidence, id, rep, *re) && subst_rel(*motive, id, rep, *rm) && subst_rel(
            *body,
            id,
            rep,
            *rb,
        ),
        Term::Let { bindings, body } => r matches Term::Let { bindings: rbs, body: rbody }
            && rbs@.len() == bindings@.len() && (forall|k: int|
            0 <= k < bindings@.len() ==> {
                &&& #[trigger] rbs@[k].quant == bindings@[k].quant
                &&& rbs@[k].name == bindings@[k].name
                &&& rbs@[k].id == bindings@[k].id
                &&& subst_rel(*bindings@[k].value, id, rep, *rbs@[k].value)
            }) && if (exists|k: int| 0 <= k < bindings@.len() && bindings@[k].id == id) {
            rbody == body
        } else {
            subst_rel(*body, id, rep, *rbody)
        },
        _ => r == t,
    }
}

fn subst_all(ts: &Vec<TermRef>, id: usize, rep: &TermRef) -> (r: Vec<TermRef>)
    ensures
        r@.len() == ts@.len(),
        forall|k: int| 0 <= k < ts@.len() ==> subst_rel(*#[trigger] ts@[k], id, **rep, *r@[k]),
    decreases ts@, 0nat,
{
    let mut out: Vec<TermRef> = Vec::new();
    let mut i: usize = 0;
    while i < ts.len()
        invariant
            i <= ts.len(),
            out@.len() == i,
            forall|k: int| 0 <= k < i ==> subst_rel(*#[trigger] ts@[k], id, **rep, *out@[k]),
        decreases ts.len() - i,
    {
        proof {
            assert(decreases_to!(ts@ => ts@[i as int]));
        }
        out.push(substitute(&ts[i], id, rep));
        i = i + 1;
    }
    out
}

/// Replace the free occurrences of variable `id` in `t` by `rep`.
#[verifier::loop_isolation(false)]
pub fn substitute(t: &TermRef, id: usize, rep: &TermRef) -> (r: TermRef)
    ensures
        subst_rel(**t, id, **rep, *r),
    decreases **t, 1nat,
{
    match &**t {
        Term::Var { id: i, .. } => if *i == id {
            share(rep)
        } else {
            share(t)
        },
        Term::Typ(c) => term(Term::Typ(substitute(c, id, rep))),
        Term::Min(a, b) => term(Term::Min(substitute(a, id, rep), substitute(b, id, rep))),
        Term::App(a, b) => term(Term::App(substitute(a, id, rep), substitute(b, id, rep))),
        Term::Ann(a, b) => term(Term::Ann(substitute(a, id, rep), substitute(b, id, rep))),
        Term::All { quant, name, id: b, domain, body } => {
            let domain = substitute(domain, id, rep);
            let body = if *b == id {
                share(body)
            } else {
                substitute(body, id, rep)
            };
            term(Term::All { quant: *quant, name: name.clone(), id: *b, domain, body })
        },
        Term::Lam { name, id: b, body } => if *b == id {
            share(t)
        } else {
            term(Term::Lam { name: name.clone(), id: *b, body: substitute(body, id, rep) })
        },
        Term::Ctr { name, args } => term(Term::Ctr { name: name.clone(), args: subst_all(args, id, rep) }),
        Term::Adt { name, args, excluded } => {
            let args = subst_all(args, id, rep);
            term(Term::Adt { name: name.clone(), args, excluded: copy_strings(excluded) })
        },
        Term::Mat { constructor, arm, fallback } => term(
            Term::Mat {
                constructor: constructor.clone(),
                arm: substitute(arm, id, rep),
                fallback: substitute(fallback, id, rep),
            },
        ),
        Term::Eql { left, right, ty } => term(
            Term::Eql {
                left: substitute(left, id, rep),
                right: substitute(right, id, rep),
                ty: substitute(ty, id, rep),
            },
        ),
        Term::Rwt { evidence, motive, body } => term(
            Term::Rwt {
                evidence: substitute(evidence, id, rep),
                motive: substitute(motive, id, rep),
                body: substitute(body, id, rep),
            },
        ),
        Term::Let { bindings, body } => {
            let mut out: Vec<LetBinding> = Vec::new();
            let mut shadowed = false;
            let mut i: usize = 0;
            while i < bindings.len()
                invariant
                    i <= bindings.len(),
                    out@.len() == i,
                    shadowed == (exists|k: int| 0 <= k < i && bindings@[k].id == id),
                    forall|k: int|
                        0 <= k < i ==> {
                            &&& #[trigger] out@[k].quant == bindings@[k].quant
                            &&& out@[k].name == bindings@[k].name
                            &&& out@[k].id == bindings@[k].id
                            &&& subst_rel(*bindings@[k].value, id, **rep, *out@[k].value)
                        },
                decreases bindings.len() - i,
            {
                proof {
                    assert(decreases_to!(bindings@ => bindings@[i as int]));
                    assert(decreases_to!(bindings@[i as int] => bindings@[i as int].value));
                }
                let b = &bindings[i];
                if b.id == id {
                    shadowed = true;
                }
                out.push(
                    LetBinding {
                        quant: b.quant,
                        name: b.name.clone(),
                        id: b.id,
                        value: substitute(&b.value, id, rep),
                    },
                );
                i = i + 1;
            }
            let body = if shadowed {
                share(body)
            } else {
                substitute(body, id, rep)
            };
            term(Term::Let { bindings: out, body })
        },
        _ => share(t),
    }
}

/// A copy of a list of names.
pub fn copy_strings(v: &Vec<String>) -> (r: Vec<String>)
    ensures
        r@ == v@,
{
    let mut out: Vec<String> = Vec::new();
    let mut i: usize = 0;
    while i < v.len()
        invariant
            i <= v.len(),
            out@ == v@.take(i as int),
        decreases v.len() - i,
    {
        out.push(v[i].clone());
        proof {
            assert(out@ =~= v@.take(i + 1));
        }
        i = i + 1;
    }
    proof {
        assert(v@.take(i as int) =~= v@);
    }
    out
}

// ---------------------------------------------------------------------------
// Operator qualification.
// ---------------------------------------------------------------------------

/// `r` is `t` with each reference whose name starts with `.` prefixed by `ns`;
/// operators such as `.add` thereby become `Nat.add` or `U32.add`.
pub open spec fn qualify_rel(t: Term, ns: Seq<char>, r: Term) -> bool
    decreases t,
{
    match t {
        Term::Ref(n) => if n@.len() > 0 && n@[0] == '.' {
            r matches Term::Ref(rn) && rn@ == ns + n@
        } else {
            r == t
        },
        Term::Typ(c) => r matches Term::Typ(rc) && qualify_rel(*c, ns, *rc),
        Term::Min(a, b) => r matches Term::Min(ra, rb) && qualify_rel(*a, ns, *ra) && qualify_rel(*b, ns, *rb),
        Term::App(a, b) => r matches Term::App(ra, rb) && qualify_rel(*a, ns, *ra) && qualify_rel(*b, ns, *rb),
        Term::Ann(a, b) => r matches Term::Ann(ra, rb) && qualify_rel(*a, ns, *ra) && qualify_rel(*b, ns, *rb),
        Term::All { quant, name, id, domain, body } => r matches Term::All {
            quant: rq,
            name: rn,
            id: ri,
            domain: rd,
            body: rbody,
        } && rq == quant && rn == name && ri == id && qualify_rel(*domain, ns, *rd) && qualify_rel(
            *body,
            ns,
            *rbody,
        ),
        Term::Lam { name, id, body } => r matches Term::Lam { name: rn, id: ri, body: rbody }
            && rn == name && ri == id && qualify_rel(*body, ns, *rbody),
        Term::Ctr { name, args } => r matches Term::Ctr { name: rn, args: ra } && rn == name
            && ra@.len() == args@.len() && forall|k: int|
            0 <= k < args@.len() ==> qualify_rel(*#[trigger] args@[k], ns, *ra@[k]),
        Term::Adt { name, args, excluded } => r matches Term::Adt {
            name: rn,
            args: ra,
            excluded: rx,
        } && rn == name && rx@ == excluded@ && ra@.len() == args@.len() && forall|k: int|
            0 <= k < args@.len() ==> qualify_rel(*#[trigger] args@[k], ns, *ra@[k]),
        Term::Mat { constructor, arm, fallback } => r matches Term::Mat {
            constructor: rc,
            arm: ra,
            fallback: rf,
        } && rc == constructor && qualify_rel(*arm, ns, *ra) && qualify_rel(*fallback, ns, *rf),
        Term::Eql { left, right, ty } => r matches Term::Eql { left: rl, right: rr, ty: rt }
            && qualify_rel(*left, ns, *rl) && qualify_rel(*right, ns, *rr) && qualify_rel(*ty, ns, *rt),
        Term::Rwt { evidence, motive, body } => r matches Term::Rwt {
            evidence: re,
            motive: rm,
            body: rb,
        } && qualify_rel(*evidence, ns, *re) && qualify_rel(*motive, ns, *rm) && qualify_rel(
            *body,
            ns,
            *rb,
        ),
        Term::Let { bindings, body } => r matches Term::Let { bindings: rbs, body: rbody }
            && rbs@.len() == bindings@.len() && (forall|k: int|
            0 <= k < bindings@.len() ==> {
                &&& #[trigger] rbs@[k].quant == bindings@[k].quant
                &&& rbs@[k].name == bindings@[k].name
                &&& rbs@[k].id == bindings@[k].id
                &&& qualify_rel(*bindings@[k].value, ns, *rbs@[k].value)
            }) && qualify_rel(*body, ns, *rbody),
        _ => r == t,
    }
}

fn qualify_all(ts: &Vec<TermRef>, namespace: &str) -> (r: Vec<TermRef>)
    ensures
        r@.len() == ts@.len(),
        forall|k: int| 0 <= k < ts@.len() ==> qualify_rel(*#[trigger] ts@[k], namespace@, *r@[k]),
    decreases ts@, 0nat,
{
    let mut out: Vec<TermRef> = Vec::new();
    let mut i: usize = 0;
    while i < ts.len()
        invariant
            i <= ts.len(),
            out@.len() == i,
            forall|k: int| 0 <= k < i ==> qualify_rel(*#[trigger] ts@[k], namespace@, *out@[k]),
        decreases ts.len() - i,
    {
        proof {
            assert(decreases_to!(ts@ => ts@[i as int]));
        }
        out.push(qualify_operators(&ts[i], namespace));
        i = i + 1;
    }
    out
}

/// Give every unqualified operator reference (`.add`, `.is_lt`, ...) the
/// namespace of the type it operates on.
#[verifier::loop_isolation(false)]
pub fn qualify_operators(value: &TermRef, namespace: &str) -> (r: TermRef)
    ensures
        qualify_rel(**value, namespace@, *r),
    decreases **value, 1nat,
{
    match &**value {
        Term::Ref(name) => if starts_with_char(name.as_str(), '.') {
            term(Term::Ref(concat(namespace, name.as_str())))
        } else {
            share(value)
        },
        Term::Typ(c) => term(Term::Typ(qualify_operators(c, namespace))),
        Term::Min(a, b) => term(Term::Min(qualify_operators(a, namespace), qualify_operators(b, namespace))),
        Term::App(a, b) => term(Term::App(qualify_operators(a, namespace), qualify_operators(b, namespace))),
        Term::Ann(a, b) => term(Term::Ann(qualify_operators(a, namespace), qualify_operators(b, namespace))),
        Term::All { quant, name, id, domain, body } => term(
            Term::All {
                quant: *quant,
                name: name.clone(),
                id: *id,
                domain: qualify_operators(domain, namespace),
                body: qualify_operators(body, namespace),
            },
        ),
        Term::Lam { name, id, body } => term(
            Term::Lam { name: name.clone(), id: *id, body: qualify_operators(body, namespace) },
        ),
        Term::Ctr { name, args } => term(Term::Ctr { name: name.clone(), args: qualify_all(args, namespace) }),
        Term::Adt { name, args, excluded } => {
            let args = qualify_all(args, namespace);
            term(Term::Adt { name: name.clone(), args, excluded: copy_strings(excluded) })
        },
        Term::Mat { constructor, arm, fallback } => term(
            Term::Mat {
                constructor: constructor.clone(),
                arm: qualify_operators(arm, namespace),
                fallback: qualify_operators(fallback, namespace),
            },
        ),
        Term::Eql { left, right, ty } => term(
            Term::Eql {
                left: qualify_operators(left, namespace),
                right: qualify_operators(right, namespace),
                ty: qualify_operators(ty, namespace),
            },
        ),
        Term::Rwt { evidence, motive, body } => term(
            Term::Rwt {
                evidence: qualify_operators(evidence, namespace),
                motive: qualify_operators(motive, namespace),
                body: qualify_operators(body, namespace),
            },
        ),
        Term::Let { bindings, body } => {
            let mut out: Vec<LetBinding> = Vec::new();
            let mut i: usize = 0;
            while i < bindings.len()
                invariant
                    i <= bindings.len(),
                    out@.len() == i,
                    forall|k: int|
                        0 <= k < i ==> {
                            &&& #[trigger] out@[k].quant == bindings@[k].quant
                            &&& out@[k].name == bindings@[k].name
                            &&& out@[k].id == bindings@[k].id
                            &&& qualify_rel(*bindings@[k].value, namespace@, *out@[k].value)
                        },
                decreases bindings.len() - i,
            {
                proof {
                    assert(decreases_to!(bindings@ => bindings@[i as int]));
                    assert(decreases_to!(bindings@[i as int] => bindings@[i as int].value));
                }
                let b = &bindings[i];
                out.push(
                    LetBinding {
                        quant: b.quant,
                        name: b.name.clone(),
                        id: b.id,
                        value: qualify_operators(&b.value, namespace),
                    },
                );
                i = i + 1;
            }
            term(Term::Let { bindings: out, body: qualify_operators(body, namespace) })
        },
        _ => share(value),
    }
}

} // verus!
