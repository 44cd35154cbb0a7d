//! Surface bodies of definitions (nested lets and matches over patterns) and
//! their compilation into core terms.
use crate::term::{share, substitute, subst_rel, term, LetBinding, Quant, Term, TermRef};
use crate::text::concat;
use vstd::prelude::*;

verus! {

/// A bound name and its unique identity.
pub struct Variable {
    pub name: String,
    pub id: usize,
}

impl Variable {
    /// The variable as a term.
    pub fn term(&self) -> (r: TermRef)
        ensures
            *r == (Term::Var { name: self.name, id: self.id }),
    {
        term(Term::Var { name: self.name.clone(), id: self.id })
    }

    /// A lambda binding this variable around `body`.
    pub fn lambda(&self, body: TermRef) -> (r: TermRef)
        ensures
            *r == (Term::Lam { name: self.name, id: self.id, body }),
    {
        term(Term::Lam { name: self.name.clone(), id: self.id, body })
    }

    pub fn copy(&self) -> (r: Variable)
        ensures
            r == *self,
    {
        Variable { name: self.name.clone(), id: self.id }
    }
}

/// A binder or a constructor applied to nested patterns.
pub enum Pattern {
    Variable(Variable),
    Constructor(String, Vec<Pattern>),
}

/// The term that a pattern denotes: a variable, or a constructor application.
pub open spec fn pattern_term_rel(p: Pattern, t: Term) -> bool
    decreases p,
{
    match p {
        Pattern::Variable(v) => t == (Term::Var { name: v.name, id: v.id }),
        Pattern::Constructor(name, fields) => t matches Term::Ctr { name: n, args } && n == name
            && args@.len() == fields@.len() && forall|k: int|
            0 <= k < fields@.len() ==> pattern_term_rel(#[trigger] fields@[k], *args@[k]),
    }
}

/// Two patterns are equal up to the identity of their field lists.
pub open spec fn same_pattern(a: Pattern, b: Pattern) -> bool
    decreases a,
{
    match a {
        Pattern::Variable(v) => b == Pattern::Variable(v),
        Pattern::Constructor(name, fields) => b matches Pattern::Constructor(n2, f2) && n2 == name
            && f2@.len() == fields@.len() && forall|k: int|
            0 <= k < fields@.len() ==> same_pattern(#[trigger] fields@[k], f2@[k]),
    }
}

impl Pattern {
    #[verifier::loop_isolation(false)]
    pub fn term(&self) -> (r: TermRef)
        ensures
            pattern_term_rel(*self, *r),
        decreases *self,
    {
        match self {
            Pattern::Variable(v) => v.term(),
            Pattern::Constructor(name, fields) => {
                let mut args: Vec<TermRef> = Vec::new();
                let mut k: usize = 0;
                while k < fields.len()
                    invariant
                        k <= fields@.len(),
                        args@.len() == k,
                        forall|j: int| 0 <= j < k ==> pattern_term_rel(#[trigger] fields@[j], *args@[j]),
                    decreases fields@.len() - k,
                {
                    proof {
                        assert(decreases_to!(fields@ => fields@[k as int]));
                    }
                    args.push(fields[k].term());
                    k = k + 1;
                }
                term(Term::Ctr { name: name.clone(), args })
            },
        }
    }

    pub fn copy(&self) -> (r: Pattern)
        ensures
            same_pattern(*self, r),
        decreases *self,
    {
        match self {
            Pattern::Variable(v) => Pattern::Variable(v.copy()),
            Pattern::Constructor(name, fields) => Pattern::Constructor(name.clone(), copy_patterns(fields)),
        }
    }
}

/// Copies of a list of patterns.
pub fn copy_patterns(ps: &Vec<Pattern>) -> (r: Vec<Pattern>)
    ensures
        r@.len() == ps@.len(),
        forall|k: int| 0 <= k < ps@.len() ==> same_pattern(#[trigger] ps@[k], r@[k]),
    decreases ps@,
{
    let mut out: Vec<Pattern> = Vec::new();
    let mut k: usize = 0;
    while k < ps.len()
        invariant
            k <= ps@.len(),
            out@.len() == k,
            forall|j: int| 0 <= j < k ==> same_pattern(#[trigger] ps@[j], out@[j]),
        decreases ps@.len() - k,
    {
        proof {
            assert(decreases_to!(ps@ => ps@[k as int]));
        }
        out.push(ps[k].copy());
        k = k + 1;
    }
    out
}

/// One case of a match: a pattern per scrutinee and the body it selects.
pub struct Row {
    pub patterns: Vec<Pattern>,
    pub body: Body,
}

/// A definition body before pattern compilation.
pub enum Body {
    Reply(TermRef),
    Local { patterns: Vec<Pattern>, quant: Quant, values: Vec<TermRef>, body: Box<Body> },
    Match { scrutinees: Vec<TermRef>, rows: Vec<Row> },
}

/// `r` is `b` wrapped, outermost first, in one single-binder `let` per
/// reusable binding, each rebinding the binder to its shared value.
pub open spec fn wraps(b: Body, bs: Seq<(Variable, TermRef)>, r: Body) -> bool
    decreases bs.len(),
{
    if bs.len() == 0 {
        r == b
    } else {
        r matches Body::Local { patterns, quant, values, body } && patterns@.len() == 1 && patterns@[0]
            == Pattern::Variable(bs[0].0) && quant == Quant::Many && values@ == seq![bs[0].1] && wraps(
            b,
            bs.drop_first(),
            *body,
        )
    }
}

/// `r` is `b` with the reusable bindings `bs` placed in every leaf that is not
/// a destructuring `let` or a `match`: the bindings reach each reply.
pub open spec fn reusable_rel(b: Body, bs: Seq<(Variable, TermRef)>, r: Body) -> bool
    decreases b,
{
    match b {
        Body::Local { patterns, quant, values, body } => if patterns@.len() > 0 && patterns@[0] is Constructor {
            r matches Body::Local { patterns: p2, quant: q2, values: v2, body: b2 } && p2 == patterns
                && q2 == quant && v2 == values && reusable_rel(*body, bs, *b2)
        } else {
            wraps(b, bs, r)
        },
        Body::Match { scrutinees, rows } => r matches Body::Match { scrutinees: s2, rows: r2 }
            && s2 == scrutinees && r2@.len() == rows@.len() && forall|k: int|
            0 <= k < rows@.len() ==> (#[trigger] r2@[k]).patterns == rows@[k].patterns && reusable_rel(
                rows@[k].body,
                bs,
                r2@[k].body,
            ),
        Body::Reply(_) => wraps(b, bs, r),
    }
}

fn wrap(body: Body, bindings: &Vec<(Variable, TermRef)>) -> (r: Body)
    ensures
        wraps(body, bindings@, r),
{
    let mut out = body;
    let ghost original = out;
    let mut k: usize = bindings.len();
    while k > 0
        invariant
            k <= bindings@.len(),
            wraps(original, bindings@.skip(k as int), out),
        decreases k,
    {
        k = k - 1;
        let mut patterns = Vec::new();
        patterns.push(Pattern::Variable(bindings[k].0.copy()));
        let mut values = Vec::new();
        values.push(share(&bindings[k].1));
        proof {
            assert(bindings@.skip(k as int).drop_first() =~= bindings@.skip(k + 1));
            assert(values@ =~= seq![bindings@[k as int].1]);
        }
        out = Body::Local { patterns, quant: Quant::Many, values, body: Box::new(out) };
    }
    proof {
        assert(bindings@.skip(0) =~= bindings@);
    }
    out
}

impl Body {
    /// Place reusable rebindings at every reply of this body: inside
    /// destructuring lets and in each match case, around everything else.
    #[verifier::loop_isolation(false)]
    pub fn with_reusable(self, bindings: &Vec<(Variable, TermRef)>) -> (r: Body)
        ensures
            reusable_rel(self, bindings@, r),
        decreases self,
    {
        let ghost whole = self;
        match self {
            Body::Local { patterns, quant, values, body } => {
                let destructuring = patterns.len() > 0 && match &patterns[0] {
                    Pattern::Constructor(_, _) => true,
                    Pattern::Variable(_) => false,
                };
                if destructuring {
                    let inner = (*body).with_reusable(bindings);
                    Body::Local { patterns, quant, values, body: Box::new(inner) }
                } else {
                    wrap(Body::Local { patterns, quant, values, body }, bindings)
                }
            },
            Body::Match { scrutinees, rows } => {
                let ghost original = rows@;
                let mut out: Vec<Row> = Vec::new();
                let mut rest = rows;
                proof {
                    assert(rest@ == original);
                }
                // Rows are rebuilt front to back; `rest` holds the rows not yet taken.
                let mut reversed: Vec<Row> = Vec::new();
                while rest.len() > 0
                    invariant
                        reversed@.len() + rest@.len() == original.len(),
                        rest@ == original.take(rest@.len() as int),
                        forall|j: int| 0 <= j < reversed@.len() ==> #[trigger] reversed@[j] == original[original.len() - 1 - j],
                    decreases rest@.len(),
                {
                    let row = rest.pop().unwrap();
                    proof {
                        assert(row == original[rest@.len() as int]);
                    }
                    reversed.push(row);
                    proof {
                        assert(rest@ =~= original.take(rest@.len() as int));
                    }
                }
                let ghost n = original.len();
                while reversed.len() > 0
                    invariant
                        n == original.len(),
                        reversed@.len() + out@.len() == n,
                        forall|j: int| 0 <= j < reversed@.len() ==> #[trigger] reversed@[j] == original[n - 1 - j],
                        forall|k: int| 0 <= k < out@.len() ==> (#[trigger] out@[k]).patterns == original[k].patterns
                            && reusable_rel(original[k].body, bindings@, out@[k].body),
                    decreases reversed@.len(),
                {
                    let row = reversed.pop().unwrap();
                    let ghost k = out@.len();
                    proof {
                        assert(row == original[k as int]);
                        assert(whole matches Body::Match { rows: r0, .. } && r0@ == original);
                        let r0 = whole->Match_rows;
                        assert(decreases_to!(whole => r0));
                        assert(decreases_to!(r0 => r0@));
                        assert(decreases_to!(r0@ => r0@[k as int]));
                        assert(decreases_to!(r0@[k as int] => r0@[k as int].body));
                        assert(decreases_to!(whole => original[k as int].body));
                    }
                    let Row { patterns, body } = row;
                    let body = body.with_reusable(bindings);
                    out.push(Row { patterns, body });
                }
                Body::Match { scrutinees, rows: out }
            },
            Body::Reply(value) => wrap(Body::Reply(value), bindings),
        }
    }
}

/// Every term of `ts` becomes the corresponding term of `rs` by substitution.
pub open spec fn subst_all_rel(ts: Seq<TermRef>, id: usize, rep: Term, rs: Seq<TermRef>) -> bool {
    &&& rs.len() == ts.len()
    &&& forall|k: int| 0 <= k < ts.len() ==> subst_rel(*#[trigger] ts[k], id, rep, *rs[k])
}

pub open spec fn same_patterns(a: Seq<Pattern>, b: Seq<Pattern>) -> bool {
    &&& a.len() == b.len()
    &&& forall|k: int| 0 <= k < a.len() ==> same_pattern(#[trigger] a[k], b[k])
}

/// `r` is `b` with variable `id` replaced by `rep` in every term it holds.
pub open spec fn replace_rel(b: Body, id: usize, rep: Term, r: Body) -> bool
    decreases b,
{
    match b {
        Body::Reply(v) => r matches Body::Reply(v2) && subst_rel(*v, id, rep, *v2),
        Body::Local { patterns, quant, values, body } => r matches Body::Local {
            patterns: p2,
            quant: q2,
            values: v2,
            body: b2,
        } && same_patterns(patterns@, p2@) && q2 == quant && subst_all_rel(values@, id, rep, v2@)
            && replace_rel(*body, id, rep, *b2),
        Body::Match { scrutinees, rows } => r matches Body::Match { scrutinees: s2, rows: r2 }
            && subst_all_rel(scrutinees@, id, rep, s2@) && r2@.len() == rows@.len() && forall|k: int|
            0 <= k < rows@.len() ==> same_patterns(rows@[k].patterns@, (#[trigger] r2@[k]).patterns@)
                && replace_rel(rows@[k].body, id, rep, r2@[k].body),
    }
}

fn substitute_each(ts: &Vec<TermRef>, id: usize, rep: &TermRef) -> (r: Vec<TermRef>)
    ensures
        subst_all_rel(ts@, id, **rep, r@),
{
    let mut out: Vec<TermRef> = Vec::new();
    let mut k: usize = 0;
    while k < ts.len()
        invariant
            k <= ts@.len(),
            out@.len() == k,
            forall|j: int| 0 <= j < k ==> subst_rel(*#[trigger] ts@[j], id, **rep, *out@[j]),
        decreases ts@.len() - k,
    {
        out.push(substitute(&ts[k], id, rep));
        k = k + 1;
    }
    out
}

impl Body {
    /// Replace variable `id` by `replacement` throughout the body.
    #[verifier::loop_isolation(false)]
    pub fn replace(&self, id: usize, replacement: &TermRef) -> (r: Body)
        ensures
            replace_rel(*self, id, **replacement, r),
        decreases *self,
    {
        match self {
            Body::Reply(value) => Body::Reply(substitute(value, id, replacement)),
            Body::Local { patterns, quant, values, body } => Body::Local {
                patterns: copy_patterns(patterns),
                quant: *quant,
                values: substitute_each(values, id, replacement),
                body: Box::new((**body).replace(id, replacement)),
            },
            Body::Match { scrutinees, rows } => {
                let mut out: Vec<Row> = Vec::new();
                let mut k: usize = 0;
                while k < rows.len()
                    invariant
                        k <= rows@.len(),
                        out@.len() == k,
                        forall|j: int| 0 <= j < k ==> same_patterns(rows@[j].patterns@, (#[trigger] out@[j]).patterns@)
                            && replace_rel(rows@[j].body, id, **replacement, out@[j].body),
                    decreases rows@.len() - k,
                {
                    proof {
                        assert(decreases_to!(rows@ => rows@[k as int]));
                    }
                    let row = &rows[k];
                    out.push(Row { patterns: copy_patterns(&row.patterns), body: row.body.replace(id, replacement) });
                    k = k + 1;
                }
                Body::Match { scrutinees: substitute_each(scrutinees, id, replacement), rows: out }
            },
        }
    }

    /// A copy of the body; terms are shared, not duplicated.
    #[verifier::loop_isolation(false)]
    pub fn copy(&self) -> (r: Body)
        ensures
            same_body(*self, r),
        decreases *self,
    {
        match self {
            Body::Reply(value) => Body::Reply(share(value)),
            Body::Local { patterns, quant, values, body } => Body::Local {
                patterns: copy_patterns(patterns),
                quant: *quant,
                values: share_each(values),
                body: Box::new((**body).copy()),
            },
            Body::Match { scrutinees, rows } => {
                let mut out: Vec<Row> = Vec::new();
                let mut k: usize = 0;
                while k < rows.len()
                    invariant
                        k <= rows@.len(),
                        out@.len() == k,
                        forall|j: int| 0 <= j < k ==> same_row(rows@[j], #[trigger] out@[j]),
                    decreases rows@.len() - k,
                {
                    proof {
                        assert(decreases_to!(rows@ => rows@[k as int]));
                    }
                    proof {
                        assert(decreases_to!(rows@[k as int] => rows@[k as int].body));
                    }
                    out.push(Row { patterns: copy_patterns(&rows[k].patterns), body: rows[k].body.copy() });
                    k = k + 1;
                }
                Body::Match { scrutinees: share_each(scrutinees), rows: out }
            },
        }
    }
}

/// `b` is a copy of `a`: the same patterns, quantities and terms.
pub open spec fn same_body(a: Body, b: Body) -> bool
    decreases a,
{
    match a {
        Body::Reply(v) => b matches Body::Reply(w) && w == v,
        Body::Local { patterns, quant, values, body } => b matches Body::Local {
            patterns: p2,
            quant: q2,
            values: v2,
            body: b2,
        } && same_patterns(patterns@, p2@) && q2 == quant && v2@ == values@ && same_body(*body, *b2),
        Body::Match { scrutinees, rows } => b matches Body::Match { scrutinees: s2, rows: r2 } && s2@ == scrutinees@
            && r2@.len() == rows@.len() && forall|k: int|
            0 <= k < rows@.len() ==> same_patterns((#[trigger] rows@[k]).patterns@, r2@[k].patterns@) && same_body(
                rows@[k].body,
                r2@[k].body,
            ),
    }
}

/// `b` is a copy of the row `a`.
pub open spec fn same_row(a: Row, b: Row) -> bool {
    same_patterns(a.patterns@, b.patterns@) && same_body(a.body, b.body)
}

/// The same terms, shared.
pub fn share_each(ts: &Vec<TermRef>) -> (r: Vec<TermRef>)
    ensures
        r@ == ts@,
{
    let mut out: Vec<TermRef> = Vec::new();
    let mut k: usize = 0;
    while k < ts.len()
        invariant
            k <= ts@.len(),
            out@ == ts@.take(k as int),
        decreases ts@.len() - k,
    {
        out.push(share(&ts[k]));
        proof {
            assert(out@ =~= ts@.take(k + 1));
        }
        k = k + 1;
    }
    proof {
        assert(ts@.take(k as int) =~= ts@);
    }
    out
}

/// Nested lambdas binding `vs`, outermost first, around `v`.
pub open spec fn lambdas(vs: Seq<Variable>, v: Term) -> Term
    decreases vs.len(),
{
    if vs.len() == 0 {
        v
    } else {
        Term::Lam { name: vs[0].name, id: vs[0].id, body: std::rc::Rc::new(lambdas(vs.drop_first(), v)) }
    }
}

/// Bind `vars` around `value`, the first variable outermost.
pub fn lambdas_around(vars: &Vec<Variable>, value: TermRef) -> (r: TermRef)
    ensures
        *r == lambdas(vars@, *value),
{
    let ghost v0 = value;
    let mut out = value;
    let mut k: usize = vars.len();
    proof {
        assert(vars@.skip(k as int) =~= Seq::<Variable>::empty());
    }
    while k > 0
        invariant
            k <= vars@.len(),
            *out == lambdas(vars@.skip(k as int), *v0),
        decreases k,
    {
        k = k - 1;
        proof {
            assert(vars@.skip(k as int).drop_first() =~= vars@.skip(k + 1));
        }
        out = vars[k].lambda(out);
    }
    proof {
        assert(vars@.skip(0) =~= vars@);
    }
    out
}

/// The limit on nested pattern compilation.
pub const FLATTEN_DEPTH: usize = 64;

fn limit_error() -> (r: String)
    ensures
        r@ == "pattern compilation exceeds the resource limit of 64 levels"@,
{
    "pattern compilation exceeds the resource limit of 64 levels".to_owned()
}

/// Compile a body into a core term that takes `vars` as its parameters.
pub fn flatten(body: &Body, vars: &Vec<Variable>, fresh: &mut usize) -> (r: Result<TermRef, String>)
    ensures
        *final(fresh) >= *old(fresh),
        body matches Body::Reply(v) ==> r matches Ok(t) && *t == lambdas(vars@, **v),
{
    flatten_at(body, vars, fresh, 0)
}

/// Pattern compilation at nesting level `depth`.
#[verifier::loop_isolation(false)]
pub fn flatten_at(body: &Body, vars: &Vec<Variable>, fresh: &mut usize, depth: usize) -> (r: Result<TermRef, String>)
    ensures
        *final(fresh) >= *old(fresh),
        depth >= FLATTEN_DEPTH ==> r is Err,
        depth < FLATTEN_DEPTH ==> (body matches Body::Reply(v) ==> r matches Ok(t) && *t == lambdas(vars@, **v)),
    decreases FLATTEN_DEPTH - depth, 0nat,
{
    if depth >= FLATTEN_DEPTH {
        return Err(limit_error());
    }
    match body {
        Body::Reply(value) => Ok(lambdas_around(vars, share(value))),
        Body::Match { scrutinees, rows } => flatten_match(scrutinees, rows, vars, fresh, depth + 1),
        Body::Local { patterns, quant, values, body } => {
            let single_constructor = patterns.len() == 1 && match &patterns[0] {
                Pattern::Constructor(_, _) => true,
                Pattern::Variable(_) => false,
            };
            if single_constructor {
                let mut rows: Vec<Row> = Vec::new();
                rows.push(Row { patterns: copy_patterns(patterns), body: (**body).copy() });
                return flatten_match(values, &rows, vars, fresh, depth + 1);
            }
            let mut bindings: Vec<Variable> = Vec::new();
            let mut k: usize = 0;
            while k < patterns.len()
                invariant
                    k <= patterns@.len(),
                decreases patterns@.len() - k,
            {
                match &patterns[k] {
                    Pattern::Variable(v) => bindings.push(v.copy()),
                    Pattern::Constructor(_, _) => return Err("a parallel let can bind only names".to_owned()),
                }
                k = k + 1;
            }
            let mut tail = flatten_at(body, &bindings, fresh, depth + 1)?;
            let mut b: usize = 0;
            while b < bindings.len()
                invariant
                    b <= bindings@.len(),
                decreases bindings@.len() - b,
            {
                let next = match &*tail {
                    Term::Lam { body, .. } => share(body),
                    _ => return Err("a match cannot scrutinize a local binding; pass it to a definition".to_owned()),
                };
                tail = next;
                b = b + 1;
            }
            let mut lets: Vec<LetBinding> = Vec::new();
            let mut j: usize = 0;
            while j < bindings.len() && j < values.len()
                invariant
                    j <= bindings@.len(),
                decreases bindings@.len() - j,
            {
                lets.push(LetBinding { quant: *quant, name: bindings[j].name.clone(), id: bindings[j].id, value: share(&values[j]) });
                j = j + 1;
            }
            let value = term(Term::Let { bindings: lets, body: tail });
            Ok(lambdas_around(vars, value))
        },
    }
}

fn first_pattern(row: &Row) -> (r: Result<&Pattern, String>)
    ensures
        r matches Ok(p) ==> row.patterns@.len() > 0 && *p == row.patterns@[0],
        r matches Err(e) ==> row.patterns@.len() == 0 && e@ == "a match row needs one pattern per scrutinee"@,
        r is Ok <==> row.patterns@.len() > 0,
{
    if row.patterns.len() == 0 {
        return Err("a match row needs one pattern per scrutinee".to_owned());
    }
    Ok(&row.patterns[0])
}

#[verifier::loop_isolation(false)]
fn tail_patterns(row: &Row) -> (r: Vec<Pattern>)
    ensures
        row.patterns@.len() == 0 ==> r@.len() == 0,
        row.patterns@.len() > 0 ==> same_patterns(row.patterns@.drop_first(), r@),
{
    let mut out: Vec<Pattern> = Vec::new();
    let mut k: usize = 1;
    while k < row.patterns.len()
        invariant
            1 <= k,
            row.patterns@.len() == 0 ==> out@.len() == 0,
            row.patterns@.len() > 0 ==> k <= row.patterns@.len() && out@.len() == k - 1,
            forall|j: int| 0 <= j < out@.len() ==> same_pattern(row.patterns@[j + 1], #[trigger] out@[j]),
        decreases row.patterns@.len() - k,
    {
        out.push(row.patterns[k].copy());
        k = k + 1;
    }
    out
}

#[verifier::loop_isolation(false)]
fn tail_terms(ts: &Vec<TermRef>) -> (r: Vec<TermRef>)
    ensures
        ts@.len() > 0 ==> r@ == ts@.drop_first(),
{
    let mut out: Vec<TermRef> = Vec::new();
    let mut k: usize = 1;
    while k < ts.len()
        invariant
            1 <= k,
            ts@.len() > 0 ==> k <= ts@.len(),
            k <= ts@.len() ==> out@ == ts@.subrange(1, k as int),
        decreases ts@.len() - k,
    {
        out.push(share(&ts[k]));
        proof {
            assert(out@ =~= ts@.subrange(1, k + 1));
        }
        k = k + 1;
    }
    proof {
        if ts@.len() > 0 {
            assert(ts@.subrange(1, ts@.len() as int) =~= ts@.drop_first());
        }
    }
    out
}

#[verifier::loop_isolation(false)]
fn tail_variables(vs: &Vec<Variable>) -> (r: Vec<Variable>)
    ensures
        vs@.len() > 0 ==> r@ == vs@.drop_first(),
{
    let mut out: Vec<Variable> = Vec::new();
    let mut k: usize = 1;
    while k < vs.len()
        invariant
            1 <= k,
            vs@.len() > 0 ==> k <= vs@.len(),
            k <= vs@.len() ==> out@ == vs@.subrange(1, k as int),
        decreases vs@.len() - k,
    {
        out.push(vs[k].copy());
        proof {
            assert(out@ =~= vs@.subrange(1, k + 1));
        }
        k = k + 1;
    }
    proof {
        if vs@.len() > 0 {
            assert(vs@.subrange(1, vs@.len() as int) =~= vs@.drop_first());
        }
    }
    out
}

/// First-row pattern compilation of a match over `scrutinees`, whose parameters
/// are `vars`: each constructor test becomes a `Mat` with an arm for the
/// matching rows and a fallback for the others.
#[verifier::loop_isolation(false)]
pub fn flatten_match(
    scrutinees: &Vec<TermRef>,
    rows: &Vec<Row>,
    vars: &Vec<Variable>,
    fresh: &mut usize,
    depth: usize,
) -> (r: Result<TermRef, String>)
    ensures
        *final(fresh) >= *old(fresh),
        depth >= FLATTEN_DEPTH ==> r is Err,
        depth < FLATTEN_DEPTH && scrutinees@.len() == 0 && rows@.len() == 0 ==> r is Err,
        depth < FLATTEN_DEPTH && scrutinees@.len() > 0 && vars@.len() == 0 ==> r is Err,
        depth < FLATTEN_DEPTH && scrutinees@.len() == 0 && rows@.len() == 0 ==> (r matches Err(e) && e@
            == "a match needs a case to return"@),
        depth < FLATTEN_DEPTH && scrutinees@.len() > 0 && vars@.len() == 0 ==> (r matches Err(e) && e@
            == "match scrutinees must be parameters or fields, in binder order"@),
        depth + 1 < FLATTEN_DEPTH && scrutinees@.len() == 0 && rows@.len() > 0 ==> (rows@[0].body matches Body::Reply(v)
            ==> r matches Ok(t) && *t == lambdas(vars@, *v)),
    decreases FLATTEN_DEPTH - depth, 1nat,
{
    if depth >= FLATTEN_DEPTH {
        return Err(limit_error());
    }
    if scrutinees.len() == 0 {
        if rows.len() == 0 {
            return Err("a match needs a case to return".to_owned());
        }
        return flatten_at(&rows[0].body, vars, fresh, depth + 1);
    }
    if vars.len() == 0 {
        return Err("match scrutinees must be parameters or fields, in binder order".to_owned());
    }
    let first = &vars[0];
    // The first row that tests a constructor in the first column.
    let mut constructor: Option<(&String, &Vec<Pattern>)> = None;
    let mut k: usize = 0;
    while k < rows.len()
        invariant
            k <= rows@.len(),
        decreases rows@.len() - k,
    {
        match first_pattern(&rows[k])? {
            Pattern::Constructor(name, fields) => {
                constructor = Some((name, fields));
                break;
            },
            Pattern::Variable(_) => {},
        }
        k = k + 1;
    }
    // The parameter that the first scrutinee names, if any.
    let mut binder: Option<&Variable> = None;
    match &*scrutinees[0] {
        Term::Var { id, .. } => {
            let mut v: usize = 0;
            while v < vars.len()
                invariant
                    v <= vars@.len(),
                decreases vars@.len() - v,
            {
                if vars[v].id == *id {
                    binder = Some(&vars[v]);
                    break;
                }
                v = v + 1;
            }
        },
        _ => {},
    }
    if let Some(v) = binder {
        if constructor.is_none() && rows.len() > 0 {
            let mut next_rows: Vec<Row> = Vec::new();
            let mut r: usize = 0;
            while r < rows.len()
                invariant
                    r <= rows@.len(),
                decreases rows@.len() - r,
            {
                let row = &rows[r];
                let p = match first_pattern(row)? {
                    Pattern::Variable(p) => p,
                    Pattern::Constructor(_, _) => return Err("a match row needs one pattern per scrutinee".to_owned()),
                };
                next_rows.push(Row { patterns: tail_patterns(row), body: row.body.replace(p.id, &v.term()) });
                r = r + 1;
            }
            return flatten_match(&tail_terms(scrutinees), &next_rows, vars, fresh, depth + 1);
        }
    }
    let binds_first = match binder {
        Some(v) => v.id == first.id,
        None => false,
    };
    if binds_first {
        let (name, fields) = match constructor {
            Some(c) => c,
            None => return Ok(term(Term::Efq)),
        };
        let mut field_vars: Vec<Variable> = Vec::new();
        let mut f: usize = 0;
        while f < fields.len()
            invariant
                f <= fields@.len(),
                *fresh >= *old(fresh),
            decreases fields@.len() - f,
        {
            match &fields[f] {
                Pattern::Variable(v) => field_vars.push(v.copy()),
                Pattern::Constructor(_, _) => {
                    let id = *fresh;
                    if id == usize::MAX {
                        return Err("fresh variable identities are exhausted".to_owned());
                    }
                    *fresh = id + 1;
                    field_vars.push(Variable { name: concat("_", id.to_string().as_str()), id });
                },
            }
            f = f + 1;
        }
        let mut value_fields: Vec<Pattern> = Vec::new();
        let mut f2: usize = 0;
        while f2 < field_vars.len()
            invariant
                f2 <= field_vars@.len(),
            decreases field_vars@.len() - f2,
        {
            value_fields.push(Pattern::Variable(field_vars[f2].copy()));
            f2 = f2 + 1;
        }
        let value = Pattern::Constructor(name.clone(), value_fields).term();
        let mut positive: Vec<Row> = Vec::new();
        let mut negative: Vec<Row> = Vec::new();
        let mut r: usize = 0;
        while r < rows.len()
            invariant
                r <= rows@.len(),
            decreases rows@.len() - r,
        {
            let row = &rows[r];
            match first_pattern(row)? {
                Pattern::Constructor(n, ps) => {
                    if *n == *name {
                        if ps.len() != fields.len() {
                            return Err(concat(concat("constructor ", name.as_str()).as_str(), " has the wrong number of fields"));
                        }
                        let mut patterns = copy_patterns(ps);
                        let mut rest = tail_patterns(row);
                        patterns.append(&mut rest);
                        positive.push(Row { patterns, body: row.body.replace(first.id, &value) });
                    } else {
                        negative.push(Row { patterns: copy_patterns(&row.patterns), body: row.body.copy() });
                    }
                },
                Pattern::Variable(v) => {
                    let mut patterns: Vec<Pattern> = Vec::new();
                    let mut q: usize = 0;
                    while q < field_vars.len()
                        invariant
                            q <= field_vars@.len(),
                        decreases field_vars@.len() - q,
                    {
                        patterns.push(Pattern::Variable(field_vars[q].copy()));
                        q = q + 1;
                    }
                    let mut rest = tail_patterns(row);
                    patterns.append(&mut rest);
                    let renamed = row.body.replace(v.id, &first.term());
                    positive.push(Row { patterns, body: renamed.replace(first.id, &value) });
                    negative.push(Row { patterns: copy_patterns(&row.patterns), body: row.body.copy() });
                },
            }
            r = r + 1;
        }
        let mut next_scrutinees: Vec<TermRef> = Vec::new();
        let mut s: usize = 0;
        while s < field_vars.len()
            invariant
                s <= field_vars@.len(),
            decreases field_vars@.len() - s,
        {
            next_scrutinees.push(field_vars[s].term());
            s = s + 1;
        }
        let mut later = tail_terms(scrutinees);
        next_scrutinees.append(&mut later);
        let mut next_vars = field_vars;
        let mut later_vars = tail_variables(vars);
        next_vars.append(&mut later_vars);
        let arm = flatten_match(&next_scrutinees, &positive, &next_vars, fresh, depth + 1)?;
        let fallback = flatten_match(scrutinees, &negative, vars, fresh, depth + 1)?;
        Ok(term(Term::Mat { constructor: name.clone(), arm, fallback }))
    } else {
        let inner = flatten_match(scrutinees, rows, &tail_variables(vars), fresh, depth + 1)?;
        Ok(first.lambda(inner))
    }
}

} // verus!
