//! The structural type checker.  Types are ordinary expressions, compared
//! syntactically; one type may be coerced to another along a fixed table.

use crate::ast::{clone_params, lemma_view_compound, params, terms, Expr, Name, Term};
use crate::combine::{names, Func, FuncView, Program, ProgramView};
use crate::integer::Integer;
use crate::namemap::NameMap;
use vstd::prelude::*;

verus! {

/// Why a program does not type-check.
#[derive(Debug)]
pub enum TypeError {
    /// The type-expression of the argument of this name is not a type:
    /// the expression, and the type that was inferred for it.
    ExpectedArgToBeOfTypeType(String, Expr, Expr),
    /// Two arguments of one declaration have this name.
    DuplicateArgName(String),
    /// The type inferred for a body, and the declared return type that it
    /// cannot be coerced to.
    CannotCoerceReturnType(Expr, Expr),
    /// In a call of the function of this name, at this place: the actual
    /// argument, the type inferred for it, and the type of the formal that
    /// it cannot be coerced to.
    CannotCoerceArgumentType(String, usize, Expr, Expr, Expr),
    /// A call names a function that has no checked signature.
    NoSuchFunc(String),
    /// A variable is not bound where it is used.
    NoSuchVar(String),
    /// A call of the function of this name, which has so many arguments,
    /// gives so many.
    WrongNumberOfArgs(String, usize, usize),
}

/// What a [`TypeError`] denotes in contracts.
pub enum TypeFailure {
    ExpectedArgToBeOfTypeType(Name, Term, Term),
    DuplicateArgName(Name),
    CannotCoerceReturnType(Term, Term),
    CannotCoerceArgumentType(Name, nat, Term, Term, Term),
    NoSuchFunc(Name),
    NoSuchVar(Name),
    WrongNumberOfArgs(Name, nat, nat),
}

impl View for TypeError {
    type V = TypeFailure;

    open spec fn view(&self) -> TypeFailure {
        match self {
            TypeError::ExpectedArgToBeOfTypeType(x, e, t) => TypeFailure::ExpectedArgToBeOfTypeType(
                x@,
                e@,
                t@,
            ),
            TypeError::DuplicateArgName(x) => TypeFailure::DuplicateArgName(x@),
            TypeError::CannotCoerceReturnType(t, r) => TypeFailure::CannotCoerceReturnType(t@, r@),
            TypeError::CannotCoerceArgumentType(f, i, x, t, u) => TypeFailure::CannotCoerceArgumentType(
                f@,
                *i as nat,
                x@,
                t@,
                u@,
            ),
            TypeError::NoSuchFunc(f) => TypeFailure::NoSuchFunc(f@),
            TypeError::NoSuchVar(x) => TypeFailure::NoSuchVar(x@),
            TypeError::WrongNumberOfArgs(f, n, m) => TypeFailure::WrongNumberOfArgs(
                f@,
                *n as nat,
                *m as nat,
            ),
        }
    }
}

/// The signature of a declaration that has been checked.
#[derive(Debug)]
pub struct CheckedFunc {
    pub args: Vec<(String, Expr)>,
    pub ret: Expr,
}

/// What a [`CheckedFunc`] denotes in contracts.
pub struct Signature {
    pub args: Seq<(Name, Term)>,
    pub ret: Term,
}

impl View for CheckedFunc {
    type V = Signature;

    open spec fn view(&self) -> Signature {
        Signature { args: params(self.args@), ret: self.ret@ }
    }
}

/// The type `list(t)`: its element type `t`.
pub open spec fn list_of(t: Term) -> Option<Term> {
    match t {
        Term::Call(f, xs) => if f == "list"@ && xs.len() == 1 {
            Some(xs[0])
        } else {
            None
        },
        _ => None,
    }
}

/// The type `vector(t, n)`: its element type `t` and its length `n`.
pub open spec fn vector_of(t: Term) -> Option<(Term, Term)> {
    match t {
        Term::Call(f, xs) => if f == "vector"@ && xs.len() == 2 {
            Some((xs[0], xs[1]))
        } else {
            None
        },
        _ => None,
    }
}

/// The type `tuple(ts)`: the expression `ts` of its element types.
pub open spec fn tuple_of(t: Term) -> Option<Term> {
    match t {
        Term::Call(f, xs) => if f == "tuple"@ && xs.len() == 1 {
            Some(xs[0])
        } else {
            None
        },
        _ => None,
    }
}

/// An array written out element by element: its elements.
pub open spec fn array_of(t: Term) -> Option<Seq<Term>> {
    match t {
        Term::Array(xs) => Some(xs),
        _ => None,
    }
}

/// The element types of the type `tuple([t0, .., tn])`, where they are
/// written out.
pub open spec fn tuple_elements(t: Term) -> Option<Seq<Term>> {
    match tuple_of(t) {
        Some(ts) => array_of(ts),
        None => None,
    }
}

/// Whether a value of type `sub` may stand where one of type `sup` is
/// expected.  Equal types coerce, and `false` coerces to everything;
/// `uint` coerces to `int`; lists, vectors and tuples coerce element by
/// element, a length being equal to another only where both are written
/// identically.
pub open spec fn coerces(sub: Term, sup: Term) -> bool
    decreases sub,
{
    if sub == sup || sub == Term::Var("false"@) {
        true
    } else if sup == Term::Var("int"@) {
        sub == Term::Var("uint"@)
    } else if list_of(sup) is Some {
        let t1 = list_of(sup)->0;
        if list_of(sub) is Some {
            coerces(list_of(sub)->0, t1)
        } else if vector_of(sub) is Some {
            let (t0, _m) = vector_of(sub)->0;
            coerces(t0, t1)
        } else if tuple_elements(sub) is Some {
            let ts = tuple_elements(sub)->0;
            forall|i: int| 0 <= i < ts.len() ==> coerces(#[trigger] ts[i], t1)
        } else {
            false
        }
    } else if vector_of(sup) is Some {
        let (t1, n) = vector_of(sup)->0;
        if vector_of(sub) is Some {
            let (t0, m) = vector_of(sub)->0;
            coerces(t0, t1) && m == n
        } else if tuple_elements(sub) is Some {
            let ts = tuple_elements(sub)->0;
            n == Term::Int(ts.len() as int) && forall|i: int|
                0 <= i < ts.len() ==> coerces(#[trigger] ts[i], t1)
        } else {
            false
        }
    } else if tuple_elements(sup) is Some {
        let ts1 = tuple_elements(sup)->0;
        if vector_of(sub) is Some {
            let (t0, n) = vector_of(sub)->0;
            n == Term::Int(ts1.len() as int) && forall|i: int|
                0 <= i < ts1.len() ==> coerces(t0, #[trigger] ts1[i])
        } else if tuple_elements(sub) is Some {
            let ts0 = tuple_elements(sub)->0;
            ts0.len() == ts1.len() && forall|i: int|
                0 <= i < ts0.len() ==> coerces(#[trigger] ts0[i], ts1[i])
        } else {
            false
        }
    } else {
        false
    }
}

impl Expr {
    /// The element type, where the expression is `list(t)`.
    pub fn is_list_type(&self) -> (r: Option<&Expr>)
        ensures
            match r {
                Some(t) => list_of(self@) == Some(t@) && decreases_to!(self => t),
                None => list_of(self@) is None,
            },
    {
        proof {
            lemma_view_compound(*self);
        }
        match self {
            Expr::Call(f, xs) => {
                let list = "list".to_owned();
                if *f == list && xs.len() == 1 {
                    Some(&xs[0])
                } else {
                    None
                }
            },
            _ => None,
        }
    }

    /// The element type and the length, where the expression is
    /// `vector(t, n)`.
    pub fn is_vector_type(&self) -> (r: Option<(&Expr, &Expr)>)
        ensures
            match r {
                Some(p) => vector_of(self@) == Some((p.0@, p.1@)) && decreases_to!(self => p.0)
                    && decreases_to!(self => p.1),
                None => vector_of(self@) is None,
            },
    {
        proof {
            lemma_view_compound(*self);
        }
        match self {
            Expr::Call(f, xs) => {
                let vector = "vector".to_owned();
                if *f == vector && xs.len() == 2 {
                    Some((&xs[0], &xs[1]))
                } else {
                    None
                }
            },
            _ => None,
        }
    }

    /// The expression of the element types, where the expression is
    /// `tuple(ts)`.
    pub fn is_tuple_type(&self) -> (r: Option<&Expr>)
        ensures
            match r {
                Some(t) => tuple_of(self@) == Some(t@) && decreases_to!(self => t),
                None => tuple_of(self@) is None,
            },
    {
        proof {
            lemma_view_compound(*self);
        }
        match self {
            Expr::Call(f, xs) => {
                let tuple = "tuple".to_owned();
                if *f == tuple && xs.len() == 1 {
                    Some(&xs[0])
                } else {
                    None
                }
            },
            _ => None,
        }
    }

    /// The elements, where the expression is an array written out.
    pub fn is_explicit_array(&self) -> (r: Option<&Vec<Expr>>)
        ensures
            match r {
                Some(xs) => array_of(self@) == Some(terms(xs@)),
                None => array_of(self@) is None,
            },
    {
        proof {
            lemma_view_compound(*self);
        }
        match self {
            Expr::Array(xs) => Some(xs),
            _ => None,
        }
    }

    /// The number, where the expression is an integer literal.
    pub fn is_literal_integer(&self) -> (r: Option<&Integer>)
        ensures
            match r {
                Some(n) => self@ == Term::Int(n@),
                None => !(self@ is Int),
            },
    {
        match self {
            Expr::Int(n) => Some(n),
            _ => None,
        }
    }

    /// The element types, where the expression is `tuple([t0, .., tn])`.
    fn tuple_element_types(&self) -> (r: Option<&Vec<Expr>>)
        ensures
            match r {
                Some(ts) => tuple_elements(self@) == Some(terms(ts@)) && decreases_to!(self => ts),
                None => tuple_elements(self@) is None,
            },
    {
        proof {
            lemma_view_compound(*self);
        }
        match self {
            Expr::Call(f, xs) => {
                let tuple = "tuple".to_owned();
                if *f == tuple && xs.len() == 1 {
                    proof {
                        lemma_view_compound(xs@[0]);
                    }
                    match &xs[0] {
                        Expr::Array(ts) => Some(ts),
                        _ => None,
                    }
                } else {
                    None
                }
            },
            _ => None,
        }
    }
}

/// Whether two expressions are known to denote the same value: only where
/// they are written identically.
pub fn can_prove_equal(a: &Expr, b: &Expr) -> (r: bool)
    ensures
        r == (a@ == b@),
{
    a.equals(b)
}

/// Whether an expression is known to denote the number `b`: only where it
/// is that number written out.
pub fn can_prove_equal_usize(a: &Expr, b: usize) -> (r: bool)
    ensures
        r == (a@ == Term::Int(b as int)),
{
    let n = Expr::Int(Integer::from_usize(b));
    can_prove_equal(a, &n)
}

/// Whether every one of `subs` coerces to `sup`.
fn all_coerce_to(subs: &Vec<Expr>, sup: &Expr) -> (r: bool)
    ensures
        r == (forall|i: int| 0 <= i < subs@.len() ==> coerces(#[trigger] terms(subs@)[i], sup@)),
    decreases subs, 1nat,
{
    let mut i: usize = 0;
    while i < subs.len()
        invariant
            i <= subs.len(),
            forall|j: int| 0 <= j < i ==> coerces(#[trigger] terms(subs@)[j], sup@),
        decreases subs.len() - i,
    {
        if !can_coerce_type(&subs[i], sup) {
            assert(!coerces(terms(subs@)[i as int], sup@));
            return false;
        }
        i += 1;
    }
    true
}

/// Whether `sub` coerces to every one of `sups`.
fn coerces_to_all(sub: &Expr, sups: &Vec<Expr>) -> (r: bool)
    ensures
        r == (forall|i: int| 0 <= i < sups@.len() ==> coerces(sub@, #[trigger] terms(sups@)[i])),
    decreases sub, 1nat,
{
    let mut i: usize = 0;
    while i < sups.len()
        invariant
            i <= sups.len(),
            forall|j: int| 0 <= j < i ==> coerces(sub@, #[trigger] terms(sups@)[j]),
        decreases sups.len() - i,
    {
        if !can_coerce_type(sub, &sups[i]) {
            assert(!coerces(sub@, terms(sups@)[i as int]));
            return false;
        }
        i += 1;
    }
    true
}

/// Whether each of `subs` coerces to the one of `sups` at the same place.
fn coerce_pointwise(subs: &Vec<Expr>, sups: &Vec<Expr>) -> (r: bool)
    requires
        subs.len() == sups.len(),
    ensures
        r == (forall|i: int|
            0 <= i < subs@.len() ==> coerces(#[trigger] terms(subs@)[i], terms(sups@)[i])),
    decreases subs, 1nat,
{
    let mut i: usize = 0;
    while i < subs.len()
        invariant
            i <= subs.len(),
            subs.len() == sups.len(),
            forall|j: int| 0 <= j < i ==> coerces(#[trigger] terms(subs@)[j], terms(sups@)[j]),
        decreases subs.len() - i,
    {
        if !can_coerce_type(&subs[i], &sups[i]) {
            assert(!coerces(terms(subs@)[i as int], terms(sups@)[i as int]));
            return false;
        }
        i += 1;
    }
    true
}

/// Whether `sub` is known to be coercible to `sup`.  Both are taken to be
/// types.
pub fn can_coerce_type(sub: &Expr, sup: &Expr) -> (r: bool)
    ensures
        r == coerces(sub@, sup@),
    decreases sub, 0nat,
{
    if sub.equals(sup) || sub.is_label("false") {
        true
    } else if sup.is_label("int") {
        sub.is_label("uint")
    } else if let Some(t1) = sup.is_list_type() {
        if let Some(t0) = sub.is_list_type() {
            can_coerce_type(t0, t1)
        } else if let Some((t0, _n)) = sub.is_vector_type() {
            can_coerce_type(t0, t1)
        } else if let Some(ts) = sub.tuple_element_types() {
            let r = all_coerce_to(ts, t1);
            proof {
                let elements = tuple_elements(sub@)->0;
                assert(elements == terms(ts@));
                if coerces(sub@, sup@) {
                    assert forall|i: int| 0 <= i < elements.len() implies coerces(
                        #[trigger] terms(ts@)[i],
                        t1@,
                    ) by {
                        assert(coerces(elements[i], t1@));
                    }
                }
            }
            r
        } else {
            false
        }
    } else if let Some((t1, n)) = sup.is_vector_type() {
        if let Some((t0, m)) = sub.is_vector_type() {
            can_coerce_type(t0, t1) && can_prove_equal(m, n)
        } else if let Some(ts) = sub.tuple_element_types() {
            assert(terms(ts@).len() == ts@.len());
            can_prove_equal_usize(n, ts.len()) && all_coerce_to(ts, t1)
        } else {
            false
        }
    } else if let Some(ts1) = sup.tuple_element_types() {
        if let Some((t0, n)) = sub.is_vector_type() {
            assert(terms(ts1@).len() == ts1@.len());
            can_prove_equal_usize(n, ts1.len()) && coerces_to_all(t0, ts1)
        } else if let Some(ts0) = sub.tuple_element_types() {
            assert(terms(ts0@).len() == ts0@.len());
            assert(terms(ts1@).len() == ts1@.len());
            ts0.len() == ts1.len() && coerce_pointwise(ts0, ts1)
        } else {
            false
        }
    } else {
        false
    }
}

/// The term `t` with every variable that `m` binds replaced by what `m`
/// binds it to.  Every other name stays as it is written.
pub open spec fn subst(t: Term, m: Map<Name, Term>) -> Term
    decreases t, 0nat,
{
    match t {
        Term::Int(_) => t,
        Term::Var(x) => if m.contains_key(x) {
            m[x]
        } else {
            t
        },
        Term::Call(f, xs) => Term::Call(f, subst_all(xs, m, xs.len())),
        Term::Array(xs) => Term::Array(subst_all(xs, m, xs.len())),
    }
}

/// [`subst`] on each of the first `k` of `ts`.
pub open spec fn subst_all(ts: Seq<Term>, m: Map<Name, Term>, k: nat) -> Seq<Term>
    decreases ts, k,
{
    if k == 0 || k > ts.len() {
        Seq::empty()
    } else {
        subst_all(ts, m, (k - 1) as nat).push(subst(ts[k - 1], m))
    }
}

/// A substitution that binds none of the names that a term mentions leaves
/// the term as it is written.
pub proof fn law_subst_keeps_other_names(t: Term, m: Map<Name, Term>)
    requires
        forall|n: Name| m.contains_key(n) ==> !crate::ordering::mentions(t, n),
    ensures
        subst(t, m) == t,
    decreases t, 0nat,
{
    match t {
        Term::Int(_) => {},
        Term::Var(x) => {
            assert(crate::ordering::mentions(t, x));
        },
        Term::Call(f, xs) => {
            lemma_subst_all_keeps(f, xs, m, xs.len(), t);
            assert(subst_all(xs, m, xs.len()) =~= xs);
        },
        Term::Array(xs) => {
            lemma_subst_all_keeps(Seq::empty(), xs, m, xs.len(), t);
            assert(subst_all(xs, m, xs.len()) =~= xs);
        },
    }
}

proof fn lemma_subst_all_keeps(f: Name, xs: Seq<Term>, m: Map<Name, Term>, k: nat, t: Term)
    requires
        k <= xs.len(),
        t == Term::Call(f, xs) || t == Term::Array(xs),
        forall|n: Name| m.contains_key(n) ==> !crate::ordering::mentions(t, n),
    ensures
        subst_all(xs, m, k).len() == k,
        forall|i: int| 0 <= i < k ==> subst_all(xs, m, k)[i] == xs[i],
    decreases xs, k,
{
    if k > 0 {
        lemma_subst_all_keeps(f, xs, m, (k - 1) as nat, t);
        assert forall|n: Name| m.contains_key(n) implies !crate::ordering::mentions(
            xs[k - 1],
            n,
        ) by {
            if crate::ordering::mentions(xs[k - 1], n) {
                crate::ordering::lemma_mentions_part(f, xs, k - 1, n);
            }
        }
        law_subst_keeps_other_names(xs[k - 1], m);
    }
}

/// [`Expr::map_vars`] on each of `xs`.
fn map_vars_all(xs: &Vec<Expr>, var_mapping: &NameMap<Expr>) -> (r: Vec<Expr>)
    ensures
        terms(r@) == subst_all(terms(xs@), var_mapping@, xs@.len()),
    decreases xs, 1nat,
{
    let mut ys: Vec<Expr> = Vec::new();
    let mut i: usize = 0;
    assert(terms(ys@) =~= Seq::<Term>::empty());
    while i < xs.len()
        invariant
            i <= xs.len(),
            terms(ys@) == subst_all(terms(xs@), var_mapping@, i as nat),
        decreases xs.len() - i,
    {
        assert(terms(xs@)[i as int] == xs@[i as int]@);
        match xs[i].map_vars(var_mapping) {
            Ok(y) => {
                assert(terms(ys@.push(y)) =~= terms(ys@).push(y@));
                ys.push(y);
            },
            Err(_) => {
                assert(false);
            },
        }
        i += 1;
    }
    ys
}

impl Expr {
    /// The expression with every variable that `var_mapping` binds replaced
    /// by what it is bound to.  Every other name stays as it is written, so
    /// the result is always `Ok`.
    pub fn map_vars(&self, var_mapping: &NameMap<Expr>) -> (r: Result<Expr, TypeError>)
        ensures
            r matches Ok(y) && y@ == subst(self@, var_mapping@),
        decreases self, 0nat,
    {
        proof {
            lemma_view_compound(*self);
        }
        match self {
            Expr::Int(_) => Ok(self.clone()),
            Expr::Var(x) => match var_mapping.get(x) {
                Some(y) => Ok(y.clone()),
                None => Ok(self.clone()),
            },
            Expr::Call(f, xs) => {
                let r = Expr::Call(f.clone(), map_vars_all(xs, var_mapping));
                proof {
                    lemma_view_compound(r);
                }
                Ok(r)
            },
            Expr::Array(xs) => {
                let r = Expr::Array(map_vars_all(xs, var_mapping));
                proof {
                    lemma_view_compound(r);
                }
                Ok(r)
            },
        }
    }
}

/// The type of an integer literal: `uint` where it is not below zero, else
/// `int`.
pub open spec fn literal_type(n: int) -> Term {
    if n < 0 {
        Term::Var("int"@)
    } else {
        Term::Var("uint"@)
    }
}

/// The type that is inferred for the expression `e`, given the signatures
/// checked so far and the types of the variables in scope.
///
/// A call checks its actual arguments from the left, each against its
/// formal: see [`bind_formals`].  Its type is the return type with the
/// formals replaced by the actual argument expressions, and every other
/// name as it is written.
pub open spec fn infer(e: Term, sigs: Map<Name, Signature>, env: Map<Name, Term>) -> Result<
    Term,
    TypeFailure,
>
    decreases e, 0nat,
{
    match e {
        Term::Int(n) => Ok(literal_type(n)),
        Term::Var(x) => if env.contains_key(x) {
            Ok(env[x])
        } else {
            Err(TypeFailure::NoSuchVar(x))
        },
        Term::Call(f, xs) => if !sigs.contains_key(f) {
            Err(TypeFailure::NoSuchFunc(f))
        } else if sigs[f].args.len() != xs.len() {
            Err(TypeFailure::WrongNumberOfArgs(f, sigs[f].args.len(), xs.len()))
        } else {
            match bind_formals(f, sigs[f].args, xs, sigs, env, xs.len()) {
                Err(e) => Err(e),
                Ok(m) => Ok(subst(sigs[f].ret, m)),
            }
        },
        Term::Array(xs) => match infer_all(xs, sigs, env, xs.len()) {
            Err(e) => Err(e),
            Ok(ts) => Ok(Term::Call("tuple"@, seq![Term::Array(ts)])),
        },
    }
}

/// [`infer`] on the first `k` of `xs`, from the left; the first error ends it.
pub open spec fn infer_all(
    xs: Seq<Term>,
    sigs: Map<Name, Signature>,
    env: Map<Name, Term>,
    k: nat,
) -> Result<Seq<Term>, TypeFailure>
    decreases xs, k,
{
    if k == 0 || k > xs.len() {
        Ok(Seq::empty())
    } else {
        match infer_all(xs, sigs, env, (k - 1) as nat) {
            Err(e) => Err(e),
            Ok(ts) => match infer(xs[k - 1], sigs, env) {
                Err(e) => Err(e),
                Ok(t) => Ok(ts.push(t)),
            },
        }
    }
}

/// The substitution that a call of `f` builds from its first `k` formals.
/// For each formal in turn, the type of its actual argument is inferred;
/// the type of the formal is taken with the formals before it replaced by
/// their actual argument expressions, every other name as it is written;
/// the first must coerce to the second; and the formal is bound to its
/// actual argument expression.
pub open spec fn bind_formals(
    f: Name,
    formals: Seq<(Name, Term)>,
    actuals: Seq<Term>,
    sigs: Map<Name, Signature>,
    env: Map<Name, Term>,
    k: nat,
) -> Result<Map<Name, Term>, TypeFailure>
    decreases actuals, k,
{
    if k == 0 || k > actuals.len() {
        Ok(Map::empty())
    } else {
        let i = (k - 1) as nat;
        match bind_formals(f, formals, actuals, sigs, env, i) {
            Err(e) => Err(e),
            Ok(m) => match infer(actuals[i as int], sigs, env) {
                Err(e) => Err(e),
                Ok(t) => {
                    let t1 = subst(formals[i as int].1, m);
                    if !coerces(t, t1) {
                        Err(
                            TypeFailure::CannotCoerceArgumentType(
                                f,
                                i,
                                actuals[i as int],
                                t,
                                t1,
                            ),
                        )
                    } else if m.contains_key(formals[i as int].0) {
                        Err(TypeFailure::DuplicateArgName(formals[i as int].0))
                    } else {
                        Ok(m.insert(formals[i as int].0, actuals[i as int]))
                    }
                },
            },
        }
    }
}

proof fn lemma_infer_all_err(
    xs: Seq<Term>,
    sigs: Map<Name, Signature>,
    env: Map<Name, Term>,
    k: nat,
    n: nat,
)
    requires
        k <= n <= xs.len(),
        infer_all(xs, sigs, env, k) is Err,
    ensures
        infer_all(xs, sigs, env, n) == infer_all(xs, sigs, env, k),
    decreases n,
{
    if k < n {
        lemma_infer_all_err(xs, sigs, env, k, (n - 1) as nat);
    }
}

proof fn lemma_bind_formals_err(
    f: Name,
    formals: Seq<(Name, Term)>,
    actuals: Seq<Term>,
    sigs: Map<Name, Signature>,
    env: Map<Name, Term>,
    k: nat,
    n: nat,
)
    requires
        k <= n <= actuals.len(),
        bind_formals(f, formals, actuals, sigs, env, k) is Err,
    ensures
        bind_formals(f, formals, actuals, sigs, env, n) == bind_formals(
            f,
            formals,
            actuals,
            sigs,
            env,
            k,
        ),
    decreases n,
{
    if k < n {
        lemma_bind_formals_err(f, formals, actuals, sigs, env, k, (n - 1) as nat);
    }
}

/// [`check_expr`] on each of `xs`, from the left.
fn check_exprs(xs: &Vec<Expr>, funcs: &NameMap<CheckedFunc>, env: &NameMap<Expr>) -> (r: Result<
    Vec<Expr>,
    TypeError,
>)
    ensures
        match r {
            Ok(ts) => infer_all(terms(xs@), funcs@, env@, xs@.len()) == Ok::<
                Seq<Term>,
                TypeFailure,
            >(terms(ts@)) && ts@.len() == xs@.len(),
            Err(e) => infer_all(terms(xs@), funcs@, env@, xs@.len()) == Err::<
                Seq<Term>,
                TypeFailure,
            >(e@),
        },
    decreases xs, 1nat,
{
    let mut ts: Vec<Expr> = Vec::new();
    let mut i: usize = 0;
    assert(terms(ts@) =~= Seq::<Term>::empty());
    while i < xs.len()
        invariant
            i <= xs.len(),
            ts@.len() == i,
            infer_all(terms(xs@), funcs@, env@, i as nat) == Ok::<Seq<Term>, TypeFailure>(
                terms(ts@),
            ),
        decreases xs.len() - i,
    {
        assert(terms(xs@)[i as int] == xs@[i as int]@);
        match check_expr(&xs[i], funcs, env) {
            Ok(t) => {
                assert(terms(ts@.push(t)) =~= terms(ts@).push(t@));
                ts.push(t);
            },
            Err(e) => {
                proof {
                    lemma_infer_all_err(terms(xs@), funcs@, env@, (i + 1) as nat, xs@.len());
                }
                return Err(e);
            },
        }
        i += 1;
    }
    Ok(ts)
}

/// The substitution that a call of `f` builds from its formals and the
/// actual arguments `xs`.
#[verifier::loop_isolation(false)]
fn check_actuals(
    f: &String,
    cf: &CheckedFunc,
    xs: &Vec<Expr>,
    funcs: &NameMap<CheckedFunc>,
    env: &NameMap<Expr>,
) -> (r: Result<NameMap<Expr>, TypeError>)
    requires
        cf.args@.len() == xs@.len(),
    ensures
        match r {
            Ok(m) => bind_formals(f@, cf@.args, terms(xs@), funcs@, env@, xs@.len()) == Ok::<
                Map<Name, Term>,
                TypeFailure,
            >(m@),
            Err(e) => bind_formals(f@, cf@.args, terms(xs@), funcs@, env@, xs@.len()) == Err::<
                Map<Name, Term>,
                TypeFailure,
            >(e@),
        },
    decreases xs, 1nat,
{
    let mut var_mapping: NameMap<Expr> = NameMap::new();
    let mut i: usize = 0;
    while i < xs.len()
        invariant
            i <= xs.len(),
            bind_formals(f@, cf@.args, terms(xs@), funcs@, env@, i as nat) == Ok::<
                Map<Name, Term>,
                TypeFailure,
            >(var_mapping@),
        decreases xs.len() - i,
    {
        proof {
            assert(cf@.args[i as int] == (cf.args@[i as int].0@, cf.args@[i as int].1@));
            assert(terms(xs@)[i as int] == xs@[i as int]@);
        }
        let ghost next = bind_formals(f@, cf@.args, terms(xs@), funcs@, env@, (i + 1) as nat);
        let t = match check_expr(&xs[i], funcs, env) {
            Ok(t) => t,
            Err(e) => {
                proof {
                    assert(next == Err::<Map<Name, Term>, TypeFailure>(e@));
                    lemma_bind_formals_err(
                        f@,
                        cf@.args,
                        terms(xs@),
                        funcs@,
                        env@,
                        (i + 1) as nat,
                        xs@.len(),
                    );
                }
                return Err(e);
            },
        };
        let t1 = match cf.args[i].1.map_vars(&var_mapping) {
            Ok(t1) => t1,
            Err(e) => {
                assert(false);
                return Err(e);
            },
        };
        if !can_coerce_type(&t, &t1) {
            let e = TypeError::CannotCoerceArgumentType(f.clone(), i, xs[i].clone(), t, t1);
            proof {
                assert(next == Err::<Map<Name, Term>, TypeFailure>(e@));
                lemma_bind_formals_err(
                    f@,
                    cf@.args,
                    terms(xs@),
                    funcs@,
                    env@,
                    (i + 1) as nat,
                    xs@.len(),
                );
            }
            return Err(e);
        }
        if var_mapping.contains_key(&cf.args[i].0) {
            let e = TypeError::DuplicateArgName(cf.args[i].0.clone());
            proof {
                assert(next == Err::<Map<Name, Term>, TypeFailure>(e@));
                lemma_bind_formals_err(
                    f@,
                    cf@.args,
                    terms(xs@),
                    funcs@,
                    env@,
                    (i + 1) as nat,
                    xs@.len(),
                );
            }
            return Err(e);
        }
        var_mapping.insert(cf.args[i].0.clone(), xs[i].clone());
        i += 1;
    }
    Ok(var_mapping)
}

/// Infers the type-expression of `expr`, given the signatures `funcs`
/// checked so far and the types `env` of the variables in scope.
pub fn check_expr(expr: &Expr, funcs: &NameMap<CheckedFunc>, env: &NameMap<Expr>) -> (r: Result<
    Expr,
    TypeError,
>)
    ensures
        match r {
            Ok(t) => infer(expr@, funcs@, env@) == Ok::<Term, TypeFailure>(t@),
            Err(e) => infer(expr@, funcs@, env@) == Err::<Term, TypeFailure>(e@),
        },
    decreases expr, 0nat,
{
    proof {
        lemma_view_compound(*expr);
    }
    match expr {
        Expr::Int(n) => {
            if n.is_negative() {
                Ok(Expr::var("int"))
            } else {
                Ok(Expr::var("uint"))
            }
        },
        Expr::Var(x) => match env.get(x) {
            Some(t) => Ok(t.clone()),
            None => Err(TypeError::NoSuchVar(x.clone())),
        },
        Expr::Call(f, xs) => match funcs.get(f) {
            Some(cf) => {
                if cf.args.len() == xs.len() {
                    match check_actuals(f, cf, xs, funcs, env) {
                        Ok(var_mapping) => cf.ret.map_vars(&var_mapping),
                        Err(e) => Err(e),
                    }
                } else {
                    Err(TypeError::WrongNumberOfArgs(f.clone(), cf.args.len(), xs.len()))
                }
            },
            None => Err(TypeError::NoSuchFunc(f.clone())),
        },
        Expr::Array(xs) => match check_exprs(xs, funcs, env) {
            Ok(ts) => {
                let array = Expr::Array(ts);
                let mut elements: Vec<Expr> = Vec::new();
                elements.push(array);
                let r = Expr::Call("tuple".to_owned(), elements);
                proof {
                    lemma_view_compound(array);
                    lemma_view_compound(r);
                    assert(terms(elements@) =~= seq![Term::Array(terms(ts@))]);
                }
                Ok(r)
            },
            Err(e) => Err(e),
        },
    }
}

/// The types of the first `k` arguments of a declaration, by name.  The
/// type-expression of each is checked under those before it, and its own
/// type must coerce to `type`; no name may come twice.
pub open spec fn bind_args(args: Seq<(Name, Term)>, sigs: Map<Name, Signature>, k: nat) -> Result<
    Map<Name, Term>,
    TypeFailure,
>
    decreases k,
{
    if k == 0 {
        Ok(Map::empty())
    } else {
        let arg = args[k - 1];
        match bind_args(args, sigs, (k - 1) as nat) {
            Err(e) => Err(e),
            Ok(env) => match infer(arg.1, sigs, env) {
                Err(e) => Err(e),
                Ok(t) => if !coerces(t, Term::Var("type"@)) {
                    Err(TypeFailure::ExpectedArgToBeOfTypeType(arg.0, arg.1, t))
                } else if env.contains_key(arg.0) {
                    Err(TypeFailure::DuplicateArgName(arg.0))
                } else {
                    Ok(env.insert(arg.0, arg.1))
                },
            },
        }
    }
}

/// The signature of the declaration `d`, given the signatures `sigs` of
/// those checked before it: the arguments are bound from the left, the
/// type of the body is inferred under them, and it must coerce to the
/// return type.
pub open spec fn check_decl(d: FuncView, sigs: Map<Name, Signature>) -> Result<
    Signature,
    TypeFailure,
> {
    match bind_args(d.args, sigs, d.args.len()) {
        Err(e) => Err(e),
        Ok(env) => match infer(d.body, sigs, env) {
            Err(e) => Err(e),
            Ok(t) => if !coerces(t, d.ret) {
                Err(TypeFailure::CannotCoerceReturnType(t, d.ret))
            } else {
                Ok(Signature { args: d.args, ret: d.ret })
            },
        },
    }
}

/// The signatures of the first `k` declarations of the program's order, each
/// checked under those before it; the first error ends it.
pub open spec fn check_all(p: ProgramView, k: nat) -> Result<Map<Name, Signature>, TypeFailure>
    decreases k,
{
    if k == 0 {
        Ok(Map::empty())
    } else {
        match check_all(p, (k - 1) as nat) {
            Err(e) => Err(e),
            Ok(sigs) => match check_decl(p.funcs[p.order[k - 1]], sigs) {
                Err(e) => Err(e),
                Ok(sig) => Ok(sigs.insert(p.order[k - 1], sig)),
            },
        }
    }
}

/// Whether the program type-checks, and the first error if it does not.
pub open spec fn type_check_spec(p: ProgramView) -> Result<(), TypeFailure> {
    match check_all(p, p.order.len()) {
        Err(e) => Err(e),
        Ok(_) => Ok(()),
    }
}

proof fn lemma_bind_args_err(args: Seq<(Name, Term)>, sigs: Map<Name, Signature>, k: nat, n: nat)
    requires
        k <= n,
        bind_args(args, sigs, k) is Err,
    ensures
        bind_args(args, sigs, n) == bind_args(args, sigs, k),
    decreases n,
{
    if k < n {
        lemma_bind_args_err(args, sigs, k, (n - 1) as nat);
    }
}

proof fn lemma_check_all_err(p: ProgramView, k: nat, n: nat)
    requires
        k <= n,
        check_all(p, k) is Err,
    ensures
        check_all(p, n) == check_all(p, k),
    decreases n,
{
    if k < n {
        lemma_check_all_err(p, k, (n - 1) as nat);
    }
}

/// Checks that `expr`, the type-expression of the argument `name`, is a
/// type: that what is inferred for it coerces to `type`.
pub fn check_arg_is_of_type_type(
    name: &String,
    expr: &Expr,
    funcs: &NameMap<CheckedFunc>,
    env: &NameMap<Expr>,
) -> (r: Result<(), TypeError>)
    ensures
        match r {
            Ok(()) => infer(expr@, funcs@, env@) matches Ok(t) && coerces(t, Term::Var("type"@)),
            Err(e) => match infer(expr@, funcs@, env@) {
                Ok(t) => !coerces(t, Term::Var("type"@)) && e@
                    == TypeFailure::ExpectedArgToBeOfTypeType(name@, expr@, t),
                Err(f) => e@ == f,
            },
        },
{
    let t = match check_expr(expr, funcs, env) {
        Ok(t) => t,
        Err(e) => {
            return Err(e);
        },
    };
    let typ = Expr::var("type");
    if can_coerce_type(&t, &typ) {
        Ok(())
    } else {
        Err(TypeError::ExpectedArgToBeOfTypeType(name.clone(), expr.clone(), t))
    }
}

/// Checks one declaration against the signatures of those checked before
/// it, and gives its own.
#[verifier::loop_isolation(false)]
pub fn check_func(func: &Func, funcs: &NameMap<CheckedFunc>) -> (r: Result<CheckedFunc, TypeError>)
    ensures
        match r {
            Ok(cf) => check_decl(func@, funcs@) == Ok::<Signature, TypeFailure>(cf@),
            Err(e) => check_decl(func@, funcs@) == Err::<Signature, TypeFailure>(e@),
        },
{
    let mut env: NameMap<Expr> = NameMap::new();
    let mut i: usize = 0;
    while i < func.args.len()
        invariant
            i <= func.args.len(),
            bind_args(func@.args, funcs@, i as nat) == Ok::<Map<Name, Term>, TypeFailure>(env@),
        decreases func.args.len() - i,
    {
        let arg = &func.args[i];
        assert(func@.args[i as int] == (arg.0@, arg.1@));
        match check_arg_is_of_type_type(&arg.0, &arg.1, funcs, &env) {
            Ok(()) => {},
            Err(e) => {
                proof {
                    lemma_bind_args_err(func@.args, funcs@, (i + 1) as nat, func@.args.len());
                }
                return Err(e);
            },
        }
        if env.contains_key(&arg.0) {
            proof {
                lemma_bind_args_err(func@.args, funcs@, (i + 1) as nat, func@.args.len());
            }
            return Err(TypeError::DuplicateArgName(arg.0.clone()));
        }
        env.insert(arg.0.clone(), arg.1.clone());
        i += 1;
    }
    assert(func@.args.len() == func.args@.len());
    let t = match check_expr(&func.body, funcs, &env) {
        Ok(t) => t,
        Err(e) => {
            return Err(e);
        },
    };
    if !can_coerce_type(&t, &func.ret) {
        return Err(TypeError::CannotCoerceReturnType(t, func.ret.clone()));
    }
    Ok(CheckedFunc { args: clone_params(&func.args), ret: func.ret.clone() })
}

/// Checks every declaration of the program, in its order.  The first
/// declaration that does not check ends it with its error.
#[verifier::loop_isolation(false)]
pub fn type_check(program: &Program) -> (r: Result<(), TypeError>)
    ensures
        match r {
            Ok(()) => type_check_spec(program@) is Ok,
            Err(e) => type_check_spec(program@) == Err::<(), TypeFailure>(e@),
        },
{
    let order = program.order();
    let funcs = program.funcs();
    let mut checked: NameMap<CheckedFunc> = NameMap::new();
    let mut i: usize = 0;
    while i < order.len()
        invariant
            i <= order.len(),
            check_all(program@, i as nat) == Ok::<Map<Name, Signature>, TypeFailure>(checked@),
        decreases order.len() - i,
    {
        let name = &order[i];
        assert(program@.order[i as int] == name@);
        assert(program@.order.contains(name@));
        match funcs.get(name) {
            Some(func) => match check_func(func, &checked) {
                Ok(cf) => {
                    checked.insert(name.clone(), cf);
                },
                Err(e) => {
                    proof {
                        lemma_check_all_err(program@, (i + 1) as nat, order@.len());
                    }
                    return Err(e);
                },
            },
            None => {
                assert(false);
            },
        }
        i += 1;
    }
    Ok(())
}

/// The type `vector(t, n)`.
pub open spec fn vector_type(t: Term, n: Term) -> Term {
    Term::Call("vector"@, seq![t, n])
}

/// The type `tuple([t0, .., tn])`.
pub open spec fn tuple_type(ts: Seq<Term>) -> Term {
    Term::Call("tuple"@, seq![Term::Array(ts)])
}

/// Every type coerces to itself.
pub proof fn law_coerces_reflexive(t: Term)
    ensures
        coerces(t, t),
{
}

/// `uint` coerces to `int`, and `int` does not coerce to `uint`.
pub proof fn law_uint_below_int()
    ensures
        coerces(Term::Var("uint"@), Term::Var("int"@)),
        !coerces(Term::Var("int"@), Term::Var("uint"@)),
{
    reveal_strlit("uint");
    reveal_strlit("int");
    reveal_strlit("false");
    assert("int"@.len() != "uint"@.len());
    assert("int"@.len() != "false"@.len());
    assert("uint"@.len() != "false"@.len());
}

/// A vector coerces to a tuple with its element types written out exactly
/// where its length is written as the number of those types, and its
/// element type coerces to each of them.  A length that is written in any
/// other way does not do, whatever number it stands for.
pub proof fn law_vector_to_tuple(t: Term, n: Term, ts: Seq<Term>)
    ensures
        coerces(vector_type(t, n), tuple_type(ts)) <==> (n == Term::Int(ts.len() as int)
            && forall|i: int| 0 <= i < ts.len() ==> coerces(t, #[trigger] ts[i])),
{
    reveal_strlit("vector");
    reveal_strlit("tuple");
    reveal_strlit("list");
    reveal_strlit("false");
    reveal_strlit("int");
    let sub = vector_type(t, n);
    let sup = tuple_type(ts);
    assert("vector"@.len() != "tuple"@.len());
    assert("list"@.len() != "tuple"@.len());
    assert(sub != sup);
    assert(list_of(sup) is None);
    assert(vector_of(sup) is None);
    assert(tuple_elements(sup) == Some(ts));
    assert(vector_of(sub) == Some((t, n)));
    let elements = tuple_elements(sup)->0;
    if coerces(sub, sup) {
        assert forall|i: int| 0 <= i < ts.len() implies coerces(t, #[trigger] ts[i]) by {
            assert(coerces(t, elements[i]));
        }
    }
    if n == Term::Int(ts.len() as int) && forall|i: int|
        0 <= i < ts.len() ==> coerces(t, #[trigger] ts[i]) {
        assert forall|i: int| 0 <= i < elements.len() implies coerces(t, #[trigger] elements[i]) by {
            assert(coerces(t, ts[i]));
        }
        assert(coerces(sub, sup));
    }
}

} // verus!
