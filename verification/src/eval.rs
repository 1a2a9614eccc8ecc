//! The evaluator.  It trusts the type checker, evaluates strictly, and
//! computes the value of a declaration without arguments at most once in a
//! run.

use crate::ast::{lemma_view_compound, terms, Expr, Name, Term};
use crate::combine::{names, Func, Program, ProgramView};
use crate::integer::Integer;
use crate::namemap::NameMap;
use crate::ordering::{
    below, is_user, lemma_body_below, lemma_mentions_part, mentions, ordered,
};
use vstd::prelude::*;

verus! {

/// A type, as a value at run time.
#[derive(Debug)]
pub enum Type {
    False,
    True,
    Bool,
    Int,
    Uint,
    String,
    List(Box<Type>),
    Vector(Box<Type>, usize),
    Tuple(Vec<Type>),
    Type,
}

/// What a [`Type`] denotes in contracts.
pub enum TypeView {
    False,
    True,
    Bool,
    Int,
    Uint,
    String,
    List(Box<TypeView>),
    Vector(Box<TypeView>, int),
    Tuple(Seq<TypeView>),
    Type,
}

impl View for Type {
    type V = TypeView;

    open spec fn view(&self) -> TypeView
        decreases self,
    {
        match self {
            Type::False => TypeView::False,
            Type::True => TypeView::True,
            Type::Bool => TypeView::Bool,
            Type::Int => TypeView::Int,
            Type::Uint => TypeView::Uint,
            Type::String => TypeView::String,
            Type::List(t) => TypeView::List(Box::new((**t)@)),
            Type::Vector(t, n) => TypeView::Vector(Box::new((**t)@), *n as int),
            Type::Tuple(ts) => TypeView::Tuple(
                Seq::new(
                    ts.len() as nat,
                    |i: int|
                        if 0 <= i < ts.len() {
                            ts[i]@
                        } else {
                            TypeView::False
                        },
                ),
            ),
            Type::Type => TypeView::Type,
        }
    }
}

/// The views of a sequence of types, one for one.
pub open spec fn type_views(ts: Seq<Type>) -> Seq<TypeView> {
    Seq::new(ts.len(), |i: int| ts[i]@)
}

/// The view of a tuple type is made of the views of its elements.
pub proof fn lemma_view_tuple(t: Type)
    ensures
        t matches Type::Tuple(ts) ==> t@ == TypeView::Tuple(type_views(ts@)),
{
    match t {
        Type::Tuple(ts) => {
            assert(t@->Tuple_0 =~= type_views(ts@));
        },
        _ => {},
    }
}

/// A value at run time.  There are no function values.
#[derive(Debug)]
pub enum Val {
    Int(Integer),
    String(String),
    Array(Vec<Val>),
    Type(Type),
}

/// What a [`Val`] denotes in contracts.
pub enum Value {
    Int(int),
    String(Seq<char>),
    Array(Seq<Value>),
    Type(TypeView),
}

impl View for Val {
    type V = Value;

    open spec fn view(&self) -> Value
        decreases self,
    {
        match self {
            Val::Int(n) => Value::Int(n@),
            Val::String(s) => Value::String(s@),
            Val::Array(xs) => Value::Array(
                Seq::new(
                    xs.len() as nat,
                    |i: int|
                        if 0 <= i < xs.len() {
                            xs[i]@
                        } else {
                            Value::Int(0)
                        },
                ),
            ),
            Val::Type(t) => Value::Type(t@),
        }
    }
}

/// The views of a sequence of values, one for one.
pub open spec fn values(xs: Seq<Val>) -> Seq<Value> {
    Seq::new(xs.len(), |i: int| xs[i]@)
}

/// The view of an array is made of the views of its elements.
pub proof fn lemma_view_array(v: Val)
    ensures
        v matches Val::Array(xs) ==> v@ == Value::Array(values(xs@)),
{
    match v {
        Val::Array(xs) => {
            assert(v@->Array_0 =~= values(xs@));
        },
        _ => {},
    }
}

/// Why an evaluation failed.
#[derive(Debug)]
pub enum EvalError {
    /// A call of the function of this name, which has so many arguments,
    /// gave so many.
    WrongNumberOfArgs(String, usize, usize),
    /// Nothing declares the name.
    NoSuchFunc(String),
    /// The prelude declares the name, and the evaluator has no builtin for
    /// it.
    NoSuchPreludeFunction(String),
    /// A number is too large for the place it is meant for, such as the
    /// length of a vector.
    Overflow,
    /// A builtin was given this value where it needs an integer.
    NotInteger(Val),
    /// A builtin was given this value where it needs a type.
    NotType(Val),
    /// A builtin was given this value where it needs an array.
    NotArray(Val),
}

/// What an [`EvalError`] denotes in contracts.
pub enum EvalFailure {
    WrongNumberOfArgs(Name, nat, nat),
    NoSuchFunc(Name),
    NoSuchPreludeFunction(Name),
    Overflow,
    NotInteger(Value),
    NotType(Value),
    NotArray(Value),
}

impl View for EvalError {
    type V = EvalFailure;

    open spec fn view(&self) -> EvalFailure {
        match self {
            EvalError::WrongNumberOfArgs(f, n, m) => EvalFailure::WrongNumberOfArgs(
                f@,
                *n as nat,
                *m as nat,
            ),
            EvalError::NoSuchFunc(f) => EvalFailure::NoSuchFunc(f@),
            EvalError::NoSuchPreludeFunction(f) => EvalFailure::NoSuchPreludeFunction(f@),
            EvalError::Overflow => EvalFailure::Overflow,
            EvalError::NotInteger(v) => EvalFailure::NotInteger(v@),
            EvalError::NotType(v) => EvalFailure::NotType(v@),
            EvalError::NotArray(v) => EvalFailure::NotArray(v@),
        }
    }
}

/// A copy of a list of types, view for view.
pub fn clone_types(ts: &Vec<Type>) -> (r: Vec<Type>)
    ensures
        type_views(r@) == type_views(ts@),
    decreases ts,
{
    let mut r: Vec<Type> = Vec::new();
    let mut i: usize = 0;
    while i < ts.len()
        invariant
            i <= ts.len(),
            r.len() == i,
            forall|j: int| 0 <= j < i ==> r@[j]@ == ts@[j]@,
        decreases ts.len() - i,
    {
        let t = ts[i].clone();
        r.push(t);
        i += 1;
    }
    assert(type_views(r@) =~= type_views(ts@));
    r
}

impl Clone for Type {
    fn clone(&self) -> (r: Type)
        ensures
            r@ == self@,
        decreases self,
    {
        proof {
            lemma_view_tuple(*self);
        }
        let r = match self {
            Type::False => Type::False,
            Type::True => Type::True,
            Type::Bool => Type::Bool,
            Type::Int => Type::Int,
            Type::Uint => Type::Uint,
            Type::String => Type::String,
            Type::List(t) => {
                let inner: &Type = &**t;
                Type::List(Box::new(inner.clone()))
            },
            Type::Vector(t, n) => {
                let inner: &Type = &**t;
                Type::Vector(Box::new(inner.clone()), *n)
            },
            Type::Tuple(ts) => Type::Tuple(clone_types(ts)),
            Type::Type => Type::Type,
        };
        proof {
            lemma_view_tuple(r);
        }
        r
    }
}

/// A copy of a list of values, view for view.
pub fn clone_vals(xs: &Vec<Val>) -> (r: Vec<Val>)
    ensures
        values(r@) == values(xs@),
    decreases xs,
{
    let mut r: Vec<Val> = Vec::new();
    let mut i: usize = 0;
    while i < xs.len()
        invariant
            i <= xs.len(),
            r.len() == i,
            forall|j: int| 0 <= j < i ==> r@[j]@ == xs@[j]@,
        decreases xs.len() - i,
    {
        let x = xs[i].clone();
        r.push(x);
        i += 1;
    }
    assert(values(r@) =~= values(xs@));
    r
}

impl Clone for Val {
    fn clone(&self) -> (r: Val)
        ensures
            r@ == self@,
        decreases self,
    {
        proof {
            lemma_view_array(*self);
        }
        let r = match self {
            Val::Int(n) => Val::Int(n.clone()),
            Val::String(s) => Val::String(s.clone()),
            Val::Array(xs) => Val::Array(clone_vals(xs)),
            Val::Type(t) => Val::Type(t.clone()),
        };
        proof {
            lemma_view_array(r);
        }
        r
    }
}

/// The number that a value is, as the length of a vector.
pub open spec fn as_length(v: Value) -> Result<int, EvalFailure> {
    match v {
        Value::Int(i) => if 0 <= i <= usize::MAX {
            Ok(i)
        } else {
            Err(EvalFailure::Overflow)
        },
        _ => Err(EvalFailure::NotInteger(v)),
    }
}

/// The type that a value is.
pub open spec fn as_type(v: Value) -> Result<TypeView, EvalFailure> {
    match v {
        Value::Type(t) => Ok(t),
        _ => Err(EvalFailure::NotType(v)),
    }
}

/// The elements of the array that a value is.
pub open spec fn as_array(v: Value) -> Result<Seq<Value>, EvalFailure> {
    match v {
        Value::Array(xs) => Ok(xs),
        _ => Err(EvalFailure::NotArray(v)),
    }
}

/// The types that the first `k` of `xs` are; the first that is no type
/// ends it.
pub open spec fn as_types(xs: Seq<Value>, k: nat) -> Result<Seq<TypeView>, EvalFailure>
    decreases k,
{
    if k == 0 {
        Ok(Seq::empty())
    } else {
        match as_types(xs, (k - 1) as nat) {
            Err(e) => Err(e),
            Ok(ts) => match as_type(xs[k - 1]) {
                Err(e) => Err(e),
                Ok(t) => Ok(ts.push(t)),
            },
        }
    }
}

/// The types that the elements of the array `v` are.
pub open spec fn as_array_of_types(v: Value) -> Result<Seq<TypeView>, EvalFailure> {
    match as_array(v) {
        Err(e) => Err(e),
        Ok(xs) => as_types(xs, xs.len()),
    }
}

proof fn lemma_as_types_err(xs: Seq<Value>, k: nat, n: nat)
    requires
        k <= n,
        as_types(xs, k) is Err,
    ensures
        as_types(xs, n) == as_types(xs, k),
    decreases n,
{
    if k < n {
        lemma_as_types_err(xs, k, (n - 1) as nat);
    }
}

impl Val {
    /// The value as a `usize`: `NotInteger` where it is no integer,
    /// `Overflow` where the integer does not fit.
    pub fn unwrap_usize(&self) -> (r: Result<usize, EvalError>)
        ensures
            match r {
                Ok(n) => as_length(self@) == Ok::<int, EvalFailure>(n as int),
                Err(e) => as_length(self@) == Err::<int, EvalFailure>(e@),
            },
    {
        match self {
            Val::Int(i) => match i.to_usize() {
                None => Err(EvalError::Overflow),
                Some(n) => Ok(n),
            },
            _ => Err(EvalError::NotInteger(self.clone())),
        }
    }

    /// The type that the value is: `NotType` where it is none.
    pub fn unwrap_type(&self) -> (r: Result<Type, EvalError>)
        ensures
            match r {
                Ok(t) => as_type(self@) == Ok::<TypeView, EvalFailure>(t@),
                Err(e) => as_type(self@) == Err::<TypeView, EvalFailure>(e@),
            },
    {
        match self {
            Val::Type(t) => Ok(t.clone()),
            _ => Err(EvalError::NotType(self.clone())),
        }
    }

    /// The elements of the array that the value is: `NotArray` where it is
    /// none.
    pub fn unwrap_array(&self) -> (r: Result<Vec<Val>, EvalError>)
        ensures
            match r {
                Ok(xs) => as_array(self@) == Ok::<Seq<Value>, EvalFailure>(values(xs@)),
                Err(e) => as_array(self@) == Err::<Seq<Value>, EvalFailure>(e@),
            },
    {
        proof {
            lemma_view_array(*self);
        }
        match self {
            Val::Array(xs) => Ok(clone_vals(xs)),
            _ => Err(EvalError::NotArray(self.clone())),
        }
    }

    /// The types that the elements of the array are: `NotArray` where the
    /// value is no array, `NotType` for the first element that is no type.
    #[verifier::loop_isolation(false)]
    pub fn unwrap_array_of_types(&self) -> (r: Result<Vec<Type>, EvalError>)
        ensures
            match r {
                Ok(ts) => as_array_of_types(self@) == Ok::<Seq<TypeView>, EvalFailure>(
                    type_views(ts@),
                ),
                Err(e) => as_array_of_types(self@) == Err::<Seq<TypeView>, EvalFailure>(e@),
            },
    {
        let xs = match self.unwrap_array() {
            Ok(xs) => xs,
            Err(e) => {
                return Err(e);
            },
        };
        let mut ts: Vec<Type> = Vec::new();
        let mut i: usize = 0;
        assert(type_views(ts@) =~= Seq::<TypeView>::empty());
        while i < xs.len()
            invariant
                i <= xs.len(),
                as_types(values(xs@), i as nat) == Ok::<Seq<TypeView>, EvalFailure>(
                    type_views(ts@),
                ),
            decreases xs.len() - i,
        {
            assert(values(xs@)[i as int] == xs@[i as int]@);
            match xs[i].unwrap_type() {
                Ok(t) => {
                    assert(type_views(ts@.push(t)) =~= type_views(ts@).push(t@));
                    ts.push(t);
                },
                Err(e) => {
                    proof {
                        lemma_as_types_err(values(xs@), (i + 1) as nat, xs@.len());
                    }
                    return Err(e);
                },
            }
            i += 1;
        }
        Ok(ts)
    }
}

/// What a builtin of the prelude gives for its arguments.  The names of
/// the simple types give their types whatever they are given; `list`,
/// `vector` and `tuple` build a type from their first arguments, which must
/// be there and have the right shape.
pub open spec fn builtin(f: Name, args: Seq<Value>) -> Result<Value, EvalFailure> {
    if f == "true"@ {
        Ok(Value::Type(TypeView::True))
    } else if f == "false"@ {
        Ok(Value::Type(TypeView::False))
    } else if f == "bool"@ {
        Ok(Value::Type(TypeView::Bool))
    } else if f == "int"@ {
        Ok(Value::Type(TypeView::Int))
    } else if f == "uint"@ {
        Ok(Value::Type(TypeView::Uint))
    } else if f == "string"@ {
        Ok(Value::Type(TypeView::String))
    } else if f == "type"@ {
        Ok(Value::Type(TypeView::Type))
    } else if f == "list"@ {
        if args.len() < 1 {
            Err(EvalFailure::WrongNumberOfArgs(f, 1, args.len()))
        } else {
            match as_type(args[0]) {
                Err(e) => Err(e),
                Ok(t) => Ok(Value::Type(TypeView::List(Box::new(t)))),
            }
        }
    } else if f == "vector"@ {
        if args.len() < 2 {
            Err(EvalFailure::WrongNumberOfArgs(f, 2, args.len()))
        } else {
            match as_type(args[0]) {
                Err(e) => Err(e),
                Ok(t) => match as_length(args[1]) {
                    Err(e) => Err(e),
                    Ok(n) => Ok(Value::Type(TypeView::Vector(Box::new(t), n))),
                },
            }
        }
    } else if f == "tuple"@ {
        if args.len() < 1 {
            Err(EvalFailure::WrongNumberOfArgs(f, 1, args.len()))
        } else {
            match as_array_of_types(args[0]) {
                Err(e) => Err(e),
                Ok(ts) => Ok(Value::Type(TypeView::Tuple(ts))),
            }
        }
    } else {
        Err(EvalFailure::NoSuchPreludeFunction(f))
    }
}

/// Whether the name `f` is the text `lit`.
fn name_is(f: &String, lit: &str) -> (r: bool)
    ensures
        r == (f@ == lit@),
{
    let l = lit.to_owned();
    *f == l
}

/// Evaluates the builtin `f` of the prelude on `args`.
pub fn call_builtin(f: &String, args: &Vec<Val>) -> (r: Result<Val, EvalError>)
    ensures
        outcome(r) == builtin(f@, values(args@)),
{
    proof {
        if args@.len() > 0 {
            assert(values(args@)[0] == args@[0]@);
        }
        if args@.len() > 1 {
            assert(values(args@)[1] == args@[1]@);
        }
    }
    if name_is(f, "true") {
        Ok(Val::Type(Type::True))
    } else if name_is(f, "false") {
        Ok(Val::Type(Type::False))
    } else if name_is(f, "bool") {
        Ok(Val::Type(Type::Bool))
    } else if name_is(f, "int") {
        Ok(Val::Type(Type::Int))
    } else if name_is(f, "uint") {
        Ok(Val::Type(Type::Uint))
    } else if name_is(f, "string") {
        Ok(Val::Type(Type::String))
    } else if name_is(f, "type") {
        Ok(Val::Type(Type::Type))
    } else if name_is(f, "list") {
        if args.len() < 1 {
            return Err(EvalError::WrongNumberOfArgs(f.clone(), 1, args.len()));
        }
        match args[0].unwrap_type() {
            Ok(t) => Ok(Val::Type(Type::List(Box::new(t)))),
            Err(e) => Err(e),
        }
    } else if name_is(f, "vector") {
        if args.len() < 2 {
            return Err(EvalError::WrongNumberOfArgs(f.clone(), 2, args.len()));
        }
        let t = match args[0].unwrap_type() {
            Ok(t) => t,
            Err(e) => {
                return Err(e);
            },
        };
        match args[1].unwrap_usize() {
            Ok(n) => Ok(Val::Type(Type::Vector(Box::new(t), n))),
            Err(e) => Err(e),
        }
    } else if name_is(f, "tuple") {
        if args.len() < 1 {
            return Err(EvalError::WrongNumberOfArgs(f.clone(), 1, args.len()));
        }
        match args[0].unwrap_array_of_types() {
            Ok(ts) => {
                let t = Type::Tuple(ts);
                proof {
                    lemma_view_tuple(t);
                }
                Ok(Val::Type(t))
            },
            Err(e) => Err(e),
        }
    } else {
        Err(EvalError::NoSuchPreludeFunction(f.clone()))
    }
}

/// What a result of the evaluator denotes in contracts.
pub open spec fn outcome(r: Result<Val, EvalError>) -> Result<Value, EvalFailure> {
    match r {
        Ok(v) => Ok(v@),
        Err(e) => Err(e@),
    }
}

/// What a run has computed so far: the values of the declarations without
/// arguments that were asked for, and the names of those that were
/// computed, in the order in which their computation began.
pub struct Store {
    pub memo: Map<Name, Value>,
    pub forced: Seq<Name>,
}

/// The cache of one run.
#[derive(Debug)]
pub struct Memo {
    /// The value of each declaration without arguments that was asked for
    /// and computed.
    pub values: NameMap<Val>,
    /// The names whose values were not in the cache when they were asked
    /// for, in the order in which they were asked for.
    pub forced: Vec<String>,
}

impl View for Memo {
    type V = Store;

    open spec fn view(&self) -> Store {
        Store { memo: self.values@, forced: names(self.forced@) }
    }
}

/// The local environment of a call: the first `k` formals, each bound to the
/// actual argument at its place.
pub open spec fn bind_values(formals: Seq<(Name, Term)>, args: Seq<Value>, k: nat) -> Map<
    Name,
    Value,
>
    decreases k,
{
    if k == 0 {
        Map::empty()
    } else {
        bind_values(formals, args, (k - 1) as nat).insert(formals[k - 1].0, args[k - 1])
    }
}

/// The value of the expression `e` under the local environment `env`, and
/// what the run has computed after it.
///
/// A variable is looked up in the local environment first, then in the
/// cache; one that is in neither is called without arguments, and its
/// value is put into the cache.  The arguments of a call are evaluated from
/// the left, then the function is called.  The elements of an array are
/// evaluated from the left.  An error ends the evaluation.
///
/// `bound` is the place in the program's order below which the
/// declarations stand that `e` may call.
pub open spec fn eval_spec(
    p: ProgramView,
    e: Term,
    env: Map<Name, Value>,
    s: Store,
    bound: nat,
) -> (Result<Value, EvalFailure>, Store)
    decreases bound, 1nat, e, 0nat,
{
    match e {
        Term::Int(n) => (Ok(Value::Int(n)), s),
        Term::Var(x) => if env.contains_key(x) {
            (Ok(env[x]), s)
        } else if s.memo.contains_key(x) {
            (Ok(s.memo[x]), s)
        } else {
            let asked = Store { memo: s.memo, forced: s.forced.push(x) };
            let (r, s1) = call_spec(p, x, Seq::empty(), asked, bound);
            match r {
                Ok(v) => (Ok(v), Store { memo: s1.memo.insert(x, v), forced: s1.forced }),
                Err(e) => (Err(e), s1),
            }
        },
        Term::Call(f, xs) => {
            let (r, s1) = eval_all_spec(p, xs, xs.len(), env, s, bound);
            match r {
                Ok(vs) => call_spec(p, f, vs, s1, bound),
                Err(e) => (Err(e), s1),
            }
        },
        Term::Array(xs) => {
            let (r, s1) = eval_all_spec(p, xs, xs.len(), env, s, bound);
            match r {
                Ok(vs) => (Ok(Value::Array(vs)), s1),
                Err(e) => (Err(e), s1),
            }
        },
    }
}

/// [`eval_spec`] of the first `k` of `xs`, from the left; the first error
/// ends it.
pub open spec fn eval_all_spec(
    p: ProgramView,
    xs: Seq<Term>,
    k: nat,
    env: Map<Name, Value>,
    s: Store,
    bound: nat,
) -> (Result<Seq<Value>, EvalFailure>, Store)
    decreases bound, 1nat, xs, k,
{
    if k == 0 || k > xs.len() {
        (Ok(Seq::empty()), s)
    } else {
        let (r, s1) = eval_all_spec(p, xs, (k - 1) as nat, env, s, bound);
        match r {
            Err(e) => (Err(e), s1),
            Ok(vs) => {
                let (r2, s2) = eval_spec(p, xs[k - 1], env, s1, bound);
                match r2 {
                    Err(e) => (Err(e), s2),
                    Ok(v) => (Ok(vs.push(v)), s2),
                }
            },
        }
    }
}

/// The value of the call of `f` on the values `args`, and what the run has
/// computed after it.
///
/// A name that nothing declares is `NoSuchFunc`; a number of arguments
/// other than the declared one is `WrongNumberOfArgs`.  A declaration of
/// the prelude is evaluated by its builtin.  The body of a declaration of
/// the user is evaluated with its formals bound to the arguments; it may
/// call the declarations that stand before it in the order.
pub open spec fn call_spec(p: ProgramView, f: Name, args: Seq<Value>, s: Store, bound: nat) -> (
    Result<Value, EvalFailure>,
    Store,
)
    decreases bound, 0nat, Term::Int(0), 0nat,
    when is_user(p, f) ==> 0 <= p.order.index_of(f) < bound
{
    if !p.funcs.contains_key(f) {
        (Err(EvalFailure::NoSuchFunc(f)), s)
    } else if p.funcs[f].args.len() != args.len() {
        (Err(EvalFailure::WrongNumberOfArgs(f, p.funcs[f].args.len(), args.len())), s)
    } else if p.funcs[f].prelude {
        (builtin(f, args), s)
    } else {
        eval_spec(
            p,
            p.funcs[f].body,
            bind_values(p.funcs[f].args, args, args.len()),
            s,
            p.order.index_of(f) as nat,
        )
    }
}

/// The arguments that `main` is given: the array of the strings.
pub open spec fn main_args(args: Seq<String>) -> Seq<Value> {
    seq![Value::Array(Seq::new(args.len(), |i: int| Value::String(args[i]@)))]
}

/// What evaluating `main` on the strings `args` gives, and what the run
/// has computed after it.
pub open spec fn run_main_spec(p: ProgramView, args: Seq<String>) -> (
    Result<Value, EvalFailure>,
    Store,
) {
    call_spec(
        p,
        "main"@,
        main_args(args),
        Store { memo: Map::empty(), forced: Seq::empty() },
        p.order.len(),
    )
}

proof fn lemma_eval_all_err(
    p: ProgramView,
    xs: Seq<Term>,
    k: nat,
    n: nat,
    env: Map<Name, Value>,
    s: Store,
    bound: nat,
)
    requires
        k <= n <= xs.len(),
        eval_all_spec(p, xs, k, env, s, bound).0 is Err,
    ensures
        eval_all_spec(p, xs, n, env, s, bound) == eval_all_spec(p, xs, k, env, s, bound),
    decreases n,
{
    if k < n {
        lemma_eval_all_err(p, xs, k, (n - 1) as nat, env, s, bound);
    }
}

/// What a list of results of the evaluator denotes in contracts.
pub open spec fn outcomes(r: Result<Vec<Val>, EvalError>) -> Result<Seq<Value>, EvalFailure> {
    match r {
        Ok(vs) => Ok(values(vs@)),
        Err(e) => Err(e@),
    }
}

impl Program {
    /// The declaration of `name`: `NoSuchFunc` where there is none.
    pub fn lookup_fn(&self, name: &String) -> (r: Result<&Func, EvalError>)
        ensures
            ordered(self@),
            match r {
                Ok(func) => self@.funcs.contains_key(name@) && func@ == self@.funcs[name@],
                Err(e) => !self@.funcs.contains_key(name@) && e@ == EvalFailure::NoSuchFunc(name@),
            },
    {
        match self.funcs().get(name) {
            None => Err(EvalError::NoSuchFunc(name.clone())),
            Some(f) => Ok(f),
        }
    }

    /// The value of the variable `name`: from the local environment, else
    /// from the cache, else computed by a call without arguments and put
    /// into the cache.
    fn lookup_or_compute_value(
        &self,
        name: &String,
        memo: &mut Memo,
        env: &NameMap<Val>,
        Ghost(bound): Ghost<nat>,
    ) -> (r: Result<Val, EvalError>)
        requires
            ordered(self@),
            is_user(self@, name@) ==> 0 <= self@.order.index_of(name@) < bound,
            computing(self@, old(memo)@, bound, None),
        ensures
            (outcome(r), final(memo)@) == eval_spec(
                self@,
                Term::Var(name@),
                env@,
                old(memo)@,
                bound,
            ),
            env@.contains_key(name@) ==> outcome(r) == Ok::<Value, EvalFailure>(env@[name@])
                && final(memo)@ == old(memo)@,
            !env@.contains_key(name@) && old(memo)@.memo.contains_key(name@) ==> outcome(r)
                == Ok::<Value, EvalFailure>(old(memo)@.memo[name@]) && final(memo)@
                == old(memo)@,
            !env@.contains_key(name@) && !old(memo)@.memo.contains_key(name@) ==> !old(
                memo,
            )@.forced.contains(name@) && final(memo)@.forced.contains(name@) && (r matches Ok(v)
                ==> final(memo)@.memo.contains_key(name@) && final(memo)@.memo[name@] == v@),
            final(memo)@.forced.no_duplicates(),
            r is Ok ==> carries_on(old(memo)@, final(memo)@),
        decreases bound, 1nat, name,
    {
        proof {
            assert(mentions(Term::Var(name@), name@));
            lemma_eval_once(self@, Term::Var(name@), env@, old(memo)@, bound);
            if !env@.contains_key(name@) && !old(memo)@.memo.contains_key(name@) {
                lemma_asked(self@, old(memo)@, bound, name@);
            }
        }
        match env.get(name) {
            Some(x) => Ok(x.clone()),
            None => match memo.values.get(name) {
                None => {
                    memo.forced.push(name.clone());
                    assert(names(memo.forced@) =~= names(old(memo).forced@).push(name@));
                    let ghost asked = memo@;
                    assert(asked.forced.contains(name@)) by {
                        assert(asked.forced[asked.forced.len() - 1] == name@);
                    }
                    let no_args: Vec<Val> = Vec::new();
                    assert(values(no_args@) =~= Seq::<Value>::empty());
                    let x = match self.call(name, &no_args, memo, Ghost(bound)) {
                        Ok(x) => x,
                        Err(e) => {
                            proof {
                                lemma_forced_grows(self@, name@, values(no_args@), asked, bound);
                            }
                            return Err(e);
                        },
                    };
                    proof {
                        lemma_forced_grows(self@, name@, values(no_args@), asked, bound);
                    }
                    memo.values.insert(name.clone(), x.clone());
                    Ok(x)
                },
                Some(x) => Ok(x.clone()),
            },
        }
    }

    /// The value of the call of `f` on the values `args`.
    #[verifier::loop_isolation(false)]
    fn call(&self, f: &String, args: &Vec<Val>, memo: &mut Memo, Ghost(bound): Ghost<nat>) -> (r:
        Result<Val, EvalError>)
        requires
            ordered(self@),
            is_user(self@, f@) ==> 0 <= self@.order.index_of(f@) < bound,
            computing(self@, old(memo)@, bound, None) || computing(
                self@,
                old(memo)@,
                bound,
                Some(f@),
            ),
        ensures
            (outcome(r), final(memo)@) == call_spec(
                self@,
                f@,
                values(args@),
                old(memo)@,
                bound,
            ),
            final(memo)@.forced.no_duplicates(),
            r is Ok ==> carries_on(old(memo)@, final(memo)@),
        decreases bound, 0nat, f,
    {
        proof {
            lemma_call_once(self@, f@, values(args@), old(memo)@, bound);
        }
        let func = match self.lookup_fn(f) {
            Ok(func) => func,
            Err(e) => {
                return Err(e);
            },
        };
        assert(func@.args.len() == func.args@.len());
        if func.args.len() != args.len() {
            return Err(EvalError::WrongNumberOfArgs(f.clone(), func.args.len(), args.len()));
        }
        if func.prelude {
            call_builtin(f, args)
        } else {
            let mut env: NameMap<Val> = NameMap::new();
            let mut i: usize = 0;
            while i < func.args.len()
                invariant
                    i <= func.args.len(),
                    env@ == bind_values(func@.args, values(args@), i as nat),
                decreases func.args.len() - i,
            {
                assert(func@.args[i as int].0 == func.args@[i as int].0@);
                assert(values(args@)[i as int] == args@[i as int]@);
                env.insert(func.args[i].0.clone(), args[i].clone());
                i += 1;
            }
            proof {
                lemma_body_below(self@, f@);
                lemma_inside(self@, memo@, bound, f@);
            }
            self.eval(&func.body, memo, &env, Ghost(self@.order.index_of(f@) as nat))
        }
    }

    /// The values of the expressions `xs`, from the left.
    #[verifier::loop_isolation(false)]
    fn eval_all(
        &self,
        xs: &Vec<Expr>,
        memo: &mut Memo,
        env: &NameMap<Val>,
        Ghost(bound): Ghost<nat>,
    ) -> (r: Result<Vec<Val>, EvalError>)
        requires
            ordered(self@),
            forall|i: int| 0 <= i < xs@.len() ==> below(self@, #[trigger] xs@[i]@, bound),
            computing(self@, old(memo)@, bound, None),
        ensures
            (outcomes(r), final(memo)@) == eval_all_spec(
                self@,
                terms(xs@),
                xs@.len(),
                env@,
                old(memo)@,
                bound,
            ),
            final(memo)@.forced.no_duplicates(),
            r is Ok ==> carries_on(old(memo)@, final(memo)@),
        decreases bound, 2nat, xs,
    {
        proof {
            assert forall|i: int| 0 <= i < terms(xs@).len() implies below(
                self@,
                #[trigger] terms(xs@)[i],
                bound,
            ) by {
                assert(terms(xs@)[i] == xs@[i]@);
            }
            lemma_eval_all_once(self@, terms(xs@), xs@.len(), env@, old(memo)@, bound);
        }
        let mut vs: Vec<Val> = Vec::new();
        let mut i: usize = 0;
        assert(values(vs@) =~= Seq::<Value>::empty());
        while i < xs.len()
            invariant
                i <= xs.len(),
                (Ok::<Seq<Value>, EvalFailure>(values(vs@)), memo@) == eval_all_spec(
                    self@,
                    terms(xs@),
                    i as nat,
                    env@,
                    old(memo)@,
                    bound,
                ),
                computing(self@, memo@, bound, None),
            decreases xs.len() - i,
        {
            assert(terms(xs@)[i as int] == xs@[i as int]@);
            let ghost before = memo@;
            match self.eval(&xs[i], memo, env, Ghost(bound)) {
                Ok(v) => {
                    proof {
                        lemma_carried(self@, before, memo@, bound);
                    }
                    assert(values(vs@.push(v)) =~= values(vs@).push(v@));
                    vs.push(v);
                },
                Err(e) => {
                    proof {
                        lemma_eval_all_err(
                            self@,
                            terms(xs@),
                            (i + 1) as nat,
                            xs@.len(),
                            env@,
                            old(memo)@,
                            bound,
                        );
                    }
                    return Err(e);
                },
            }
            i += 1;
        }
        Ok(vs)
    }

    /// The value of the expression `expr` under the local environment
    /// `env`.
    fn eval(&self, expr: &Expr, memo: &mut Memo, env: &NameMap<Val>, Ghost(bound): Ghost<nat>) -> (r:
        Result<Val, EvalError>)
        requires
            ordered(self@),
            below(self@, expr@, bound),
            computing(self@, old(memo)@, bound, None),
        ensures
            (outcome(r), final(memo)@) == eval_spec(self@, expr@, env@, old(memo)@, bound),
            final(memo)@.forced.no_duplicates(),
            r is Ok ==> carries_on(old(memo)@, final(memo)@),
        decreases bound, 2nat, expr,
    {
        proof {
            lemma_view_compound(*expr);
            lemma_eval_once(self@, expr@, env@, old(memo)@, bound);
        }
        match expr {
            Expr::Int(n) => Ok(Val::Int(n.clone())),
            Expr::Var(x) => {
                assert(mentions(expr@, x@));
                self.lookup_or_compute_value(x, memo, env, Ghost(bound))
            },
            Expr::Call(f, args) => {
                proof {
                    assert(mentions(expr@, f@));
                    assert forall|i: int| 0 <= i < args@.len() implies below(
                        self@,
                        #[trigger] args@[i]@,
                        bound,
                    ) by {
                        assert forall|n: Name| #[trigger]
                            mentions(args@[i]@, n) && is_user(self@, n) implies 0
                            <= self@.order.index_of(n) < bound by {
                            assert(terms(args@)[i] == args@[i]@);
                            lemma_mentions_part(f@, terms(args@), i, n);
                        }
                    }
                }
                let arg_vals = match self.eval_all(args, memo, env, Ghost(bound)) {
                    Ok(vs) => vs,
                    Err(e) => {
                        return Err(e);
                    },
                };
                proof {
                    lemma_carried(self@, old(memo)@, memo@, bound);
                }
                self.call(f, &arg_vals, memo, Ghost(bound))
            },
            Expr::Array(xs) => {
                proof {
                    assert forall|i: int| 0 <= i < xs@.len() implies below(
                        self@,
                        #[trigger] xs@[i]@,
                        bound,
                    ) by {
                        assert forall|n: Name| #[trigger]
                            mentions(xs@[i]@, n) && is_user(self@, n) implies 0
                            <= self@.order.index_of(n) < bound by {
                            assert(terms(xs@)[i] == xs@[i]@);
                            lemma_mentions_part(Seq::empty(), terms(xs@), i, n);
                        }
                    }
                }
                match self.eval_all(xs, memo, env, Ghost(bound)) {
                    Ok(vs) => {
                        let r = Val::Array(vs);
                        proof {
                            lemma_view_array(r);
                        }
                        Ok(r)
                    },
                    Err(e) => Err(e),
                }
            },
        }
    }

    /// Evaluates `main` on the array of the strings `args`, and gives its
    /// value together with the cache of the run.
    pub fn run_main(&self, args: &[String]) -> (r: (Result<Val, EvalError>, Memo))
        ensures
            (outcome(r.0), r.1@) == run_main_spec(self@, args@),
            names(r.1.forced@).no_duplicates(),
    {

        let mut strings: Vec<Val> = Vec::new();
        let mut i: usize = 0;
        while i < args.len()
            invariant
                i <= args.len(),
                strings@.len() == i,
                forall|j: int| 0 <= j < i ==> strings@[j]@ == Value::String(args@[j]@),
            decreases args.len() - i,
        {
            strings.push(Val::String(args[i].clone()));
            i += 1;
        }
        let args_val = Val::Array(strings);
        let mut actuals: Vec<Val> = Vec::new();
        actuals.push(args_val);
        let mut memo = Memo { values: NameMap::new(), forced: Vec::new() };
        let main = "main".to_owned();
        proof {
            lemma_view_array(args_val);
            assert(values(strings@) =~= Seq::new(args@.len(), |i: int| Value::String(args@[i]@)));
            assert(values(actuals@) =~= main_args(args@));
            assert(names(memo.forced@) =~= Seq::<Name>::empty());
            assert(computing(self@, memo@, self@.order.len(), None));
        }
        let order = self.order();
        proof {
            if self@.funcs.contains_key(main@) {
                lemma_body_below(self@, main@);
            }
        }
        let r = self.call(&main, &actuals, &mut memo, Ghost(self@.order.len()));
        proof {
            law_computed_once(self@, args@);
        }
        (r, memo)
    }

    /// Evaluates `main` on the array of the strings `args`.
    pub fn eval_main(&self, args: &[String]) -> (r: Result<Val, EvalError>)
        ensures
            outcome(r) == run_main_spec(self@, args@).0,
    {
        self.run_main(args).0
    }
}

/// What a run keeps of its cache while it evaluates below the place
/// `bound`, inside a call of `inside`: no name was computed twice, and
/// every name that was computed either has its value in the cache or is
/// still being computed, which only `inside` and declarations at or after
/// `bound` can be.
pub open spec fn computing(p: ProgramView, s: Store, bound: nat, inside: Option<Name>) -> bool {
    &&& s.forced.no_duplicates()
    &&& forall|x: Name| #[trigger]
        s.forced.contains(x) ==> s.memo.contains_key(x) || (is_user(p, x) && p.order.index_of(x)
            >= bound) || inside == Some(x)
}

/// `later` carries on from `earlier`: every value that was in the cache is
/// still there, unchanged, and every name that was computed since has its
/// value in it.
pub open spec fn carries_on(earlier: Store, later: Store) -> bool {
    &&& forall|x: Name| #[trigger]
        earlier.memo.contains_key(x) ==> later.memo.contains_key(x) && later.memo[x]
            == earlier.memo[x]
    &&& forall|x: Name| #[trigger]
        later.forced.contains(x) ==> earlier.forced.contains(x) || later.memo.contains_key(x)
}

/// What asking for the name `x` leaves of the invariant of the cache, where
/// `x` has no value yet: `x` is now being computed.
pub proof fn lemma_asked(p: ProgramView, s: Store, bound: nat, x: Name)
    requires
        computing(p, s, bound, None),
        !s.memo.contains_key(x),
        is_user(p, x) ==> 0 <= p.order.index_of(x) < bound,
    ensures
        !s.forced.contains(x),
        computing(p, Store { memo: s.memo, forced: s.forced.push(x) }, bound, Some(x)),
{
    let asked = Store { memo: s.memo, forced: s.forced.push(x) };
    assert(!s.forced.contains(x));
    assert forall|y: Name| #[trigger] asked.forced.contains(y) implies asked.memo.contains_key(y)
        || (is_user(p, y) && p.order.index_of(y) >= bound) || Some(x) == Some(y) by {
        let i = choose|i: int| 0 <= i < asked.forced.len() && asked.forced[i] == y;
        if i < s.forced.len() {
            assert(s.forced[i] == y);
            assert(s.forced.contains(y));
        }
    }
}

/// Once the value `v` of the name `x` that was asked for is put into the
/// cache, the run carries on from where `x` was asked for.
pub proof fn lemma_answered(s: Store, s1: Store, x: Name, v: Value)
    requires
        !s.memo.contains_key(x),
        carries_on(Store { memo: s.memo, forced: s.forced.push(x) }, s1),
    ensures
        carries_on(s, Store { memo: s1.memo.insert(x, v), forced: s1.forced }),
{
    let asked = Store { memo: s.memo, forced: s.forced.push(x) };
    let done = Store { memo: s1.memo.insert(x, v), forced: s1.forced };
    assert forall|y: Name| #[trigger] done.forced.contains(y) implies s.forced.contains(y)
        || done.memo.contains_key(y) by {
        if asked.forced.contains(y) && y != x {
            let i = choose|i: int| 0 <= i < asked.forced.len() && asked.forced[i] == y;
            assert(s.forced[i] == y);
        }
    }
    assert forall|y: Name| #[trigger] s.memo.contains_key(y) implies done.memo.contains_key(y)
        && done.memo[y] == s.memo[y] by {
        assert(asked.memo.contains_key(y));
    }
}

/// Inside the call of a declaration of the user the invariant of the cache
/// holds below the place of that declaration.
pub proof fn lemma_inside(p: ProgramView, s: Store, bound: nat, f: Name)
    requires
        computing(p, s, bound, None) || computing(p, s, bound, Some(f)),
        is_user(p, f),
        0 <= p.order.index_of(f) < bound,
    ensures
        computing(p, s, p.order.index_of(f) as nat, None),
{
    let place = p.order.index_of(f) as nat;
    assert forall|x: Name| #[trigger] s.forced.contains(x) implies s.memo.contains_key(x) || (
    is_user(p, x) && p.order.index_of(x) >= place) || None::<Name> == Some(x) by {
    }
}

/// Evaluating an expression computes no name twice.
pub proof fn lemma_eval_once(
    p: ProgramView,
    e: Term,
    env: Map<Name, Value>,
    s: Store,
    bound: nat,
)
    requires
        ordered(p),
        below(p, e, bound),
        computing(p, s, bound, None),
    ensures
        eval_spec(p, e, env, s, bound).1.forced.no_duplicates(),
        eval_spec(p, e, env, s, bound).0 is Ok ==> carries_on(
            s,
            eval_spec(p, e, env, s, bound).1,
        ),
    decreases bound, 1nat, e, 0nat,
{
    match e {
        Term::Int(_) => {},
        Term::Var(x) => {
            if !env.contains_key(x) && !s.memo.contains_key(x) {
                assert(mentions(e, x));
                let asked = Store { memo: s.memo, forced: s.forced.push(x) };
                lemma_asked(p, s, bound, x);
                lemma_call_once(p, x, Seq::empty(), asked, bound);
                let (r, s1) = call_spec(p, x, Seq::empty(), asked, bound);
                match r {
                    Ok(v) => {
                        lemma_answered(s, s1, x, v);
                    },
                    Err(_) => {},
                }
            }
        },
        Term::Call(f, xs) => {
            assert(mentions(e, f));
            lemma_parts_below(p, f, xs, bound, e);
            lemma_eval_all_once(p, xs, xs.len(), env, s, bound);
            let (r, s1) = eval_all_spec(p, xs, xs.len(), env, s, bound);
            match r {
                Ok(vs) => {
                    lemma_carried(p, s, s1, bound);
                    lemma_call_once(p, f, vs, s1, bound);
                    let (r2, s2) = call_spec(p, f, vs, s1, bound);
                    if r2 is Ok {
                        lemma_carries_on_trans(s, s1, s2);
                    }
                },
                Err(_) => {},
            }
        },
        Term::Array(xs) => {
            lemma_parts_below(p, Seq::empty(), xs, bound, e);
            lemma_eval_all_once(p, xs, xs.len(), env, s, bound);
        },
    }
}

proof fn lemma_carries_on_trans(a: Store, b: Store, c: Store)
    requires
        carries_on(a, b),
        carries_on(b, c),
    ensures
        carries_on(a, c),
{
    assert forall|x: Name| #[trigger] a.memo.contains_key(x) implies c.memo.contains_key(x) by {
        assert(b.memo.contains_key(x));
    }
    assert forall|x: Name| #[trigger] c.forced.contains(x) implies a.forced.contains(x)
        || c.memo.contains_key(x) by {
        if b.forced.contains(x) && !a.forced.contains(x) {
            assert(b.memo.contains_key(x));
        }
    }
}

proof fn lemma_carried(p: ProgramView, s: Store, s1: Store, bound: nat)
    requires
        computing(p, s, bound, None),
        carries_on(s, s1),
        s1.forced.no_duplicates(),
    ensures
        computing(p, s1, bound, None),
{
    assert forall|x: Name| #[trigger] s1.forced.contains(x) implies s1.memo.contains_key(x) || (
    is_user(p, x) && p.order.index_of(x) >= bound) || None::<Name> == Some(x) by {
        if s.forced.contains(x) && s.memo.contains_key(x) {
            assert(s1.memo.contains_key(x));
        }
    }
}

/// [`lemma_eval_once`] for [`eval_all_spec`].
pub proof fn lemma_eval_all_once(
    p: ProgramView,
    xs: Seq<Term>,
    k: nat,
    env: Map<Name, Value>,
    s: Store,
    bound: nat,
)
    requires
        ordered(p),
        k <= xs.len(),
        forall|i: int| 0 <= i < xs.len() ==> below(p, #[trigger] xs[i], bound),
        computing(p, s, bound, None),
    ensures
        eval_all_spec(p, xs, k, env, s, bound).1.forced.no_duplicates(),
        eval_all_spec(p, xs, k, env, s, bound).0 is Ok ==> carries_on(
            s,
            eval_all_spec(p, xs, k, env, s, bound).1,
        ),
    decreases bound, 1nat, xs, k,
{
    if k > 0 {
        lemma_eval_all_once(p, xs, (k - 1) as nat, env, s, bound);
        let (r, s1) = eval_all_spec(p, xs, (k - 1) as nat, env, s, bound);
        match r {
            Ok(vs) => {
                lemma_carried(p, s, s1, bound);
                lemma_eval_once(p, xs[k - 1], env, s1, bound);
                let (r2, s2) = eval_spec(p, xs[k - 1], env, s1, bound);
                if r2 is Ok {
                    lemma_carries_on_trans(s, s1, s2);
                }
            },
            Err(_) => {},
        }
    }
}

/// [`lemma_eval_once`] for [`call_spec`].
pub proof fn lemma_call_once(p: ProgramView, f: Name, args: Seq<Value>, s: Store, bound: nat)
    requires
        ordered(p),
        is_user(p, f) ==> 0 <= p.order.index_of(f) < bound,
        computing(p, s, bound, None) || computing(p, s, bound, Some(f)),
    ensures
        call_spec(p, f, args, s, bound).1.forced.no_duplicates(),
        call_spec(p, f, args, s, bound).0 is Ok ==> carries_on(
            s,
            call_spec(p, f, args, s, bound).1,
        ),
    decreases bound, 0nat, Term::Int(0), 0nat,
{
    if p.funcs.contains_key(f) && p.funcs[f].args.len() == args.len() && !p.funcs[f].prelude {
        lemma_body_below(p, f);
        let place = p.order.index_of(f) as nat;
        lemma_inside(p, s, bound, f);
        lemma_eval_once(
            p,
            p.funcs[f].body,
            bind_values(p.funcs[f].args, args, args.len()),
            s,
            place,
        );
    }
}

/// A call never takes a name out of those that were computed.
pub proof fn lemma_forced_grows(p: ProgramView, f: Name, args: Seq<Value>, s: Store, bound: nat)
    requires
        ordered(p),
        is_user(p, f) ==> 0 <= p.order.index_of(f) < bound,
    ensures
        forall|x: Name| #[trigger]
            s.forced.contains(x) ==> call_spec(p, f, args, s, bound).1.forced.contains(x),
{
    if p.funcs.contains_key(f) && p.funcs[f].args.len() == args.len() && !p.funcs[f].prelude {
        lemma_body_below(p, f);
        lemma_eval_keeps_forced(
            p,
            p.funcs[f].body,
            bind_values(p.funcs[f].args, args, args.len()),
            s,
            p.order.index_of(f) as nat,
        );
    }
}

/// An evaluation never takes a name out of those that were computed.
pub proof fn lemma_eval_keeps_forced(
    p: ProgramView,
    e: Term,
    env: Map<Name, Value>,
    s: Store,
    bound: nat,
)
    requires
        ordered(p),
        below(p, e, bound),
    ensures
        forall|x: Name| #[trigger]
            s.forced.contains(x) ==> eval_spec(p, e, env, s, bound).1.forced.contains(x),
    decreases bound, 1nat, e, 0nat,
{
    match e {
        Term::Int(_) => {},
        Term::Var(x) => {
            if !env.contains_key(x) && !s.memo.contains_key(x) {
                assert(mentions(e, x));
                let asked = Store { memo: s.memo, forced: s.forced.push(x) };
                assert forall|y: Name| #[trigger] s.forced.contains(y) implies asked.forced.contains(
                y) by {
                    let i = choose|i: int| 0 <= i < s.forced.len() && s.forced[i] == y;
                    assert(asked.forced[i] == y);
                }
                if p.funcs.contains_key(x) && p.funcs[x].args.len() == 0 && !p.funcs[x].prelude {
                    lemma_body_below(p, x);
                    lemma_eval_keeps_forced(
                        p,
                        p.funcs[x].body,
                        bind_values(p.funcs[x].args, Seq::empty(), 0),
                        asked,
                        p.order.index_of(x) as nat,
                    );
                }
            }
        },
        Term::Call(f, xs) => {
            assert(mentions(e, f));
            lemma_parts_below(p, f, xs, bound, e);
            lemma_eval_all_keeps_forced(p, xs, xs.len(), env, s, bound);
            let (r, s1) = eval_all_spec(p, xs, xs.len(), env, s, bound);
            match r {
                Ok(vs) => {
                    if p.funcs.contains_key(f) && p.funcs[f].args.len() == vs.len()
                        && !p.funcs[f].prelude {
                        lemma_body_below(p, f);
                        lemma_eval_keeps_forced(
                            p,
                            p.funcs[f].body,
                            bind_values(p.funcs[f].args, vs, vs.len()),
                            s1,
                            p.order.index_of(f) as nat,
                        );
                    }
                },
                Err(_) => {},
            }
        },
        Term::Array(xs) => {
            lemma_parts_below(p, Seq::empty(), xs, bound, e);
            lemma_eval_all_keeps_forced(p, xs, xs.len(), env, s, bound);
        },
    }
}

/// The parts of a compound term mention no more than the compound.
proof fn lemma_parts_below(p: ProgramView, f: Name, xs: Seq<Term>, bound: nat, e: Term)
    requires
        below(p, e, bound),
        e == Term::Call(f, xs) || e == Term::Array(xs),
    ensures
        forall|i: int| 0 <= i < xs.len() ==> below(p, #[trigger] xs[i], bound),
{
    assert forall|i: int| 0 <= i < xs.len() implies below(p, #[trigger] xs[i], bound) by {
        assert forall|n: Name| #[trigger] mentions(xs[i], n) && is_user(p, n) implies 0
            <= p.order.index_of(n) < bound by {
            lemma_mentions_part(f, xs, i, n);
        }
    }
}

/// [`lemma_eval_keeps_forced`] for [`eval_all_spec`].
pub proof fn lemma_eval_all_keeps_forced(
    p: ProgramView,
    xs: Seq<Term>,
    k: nat,
    env: Map<Name, Value>,
    s: Store,
    bound: nat,
)
    requires
        ordered(p),
        k <= xs.len(),
        forall|i: int| 0 <= i < xs.len() ==> below(p, #[trigger] xs[i], bound),
    ensures
        forall|x: Name| #[trigger]
            s.forced.contains(x) ==> eval_all_spec(p, xs, k, env, s, bound).1.forced.contains(x),
    decreases bound, 1nat, xs, k,
{
    if k > 0 {
        lemma_eval_all_keeps_forced(p, xs, (k - 1) as nat, env, s, bound);
        let (r, s1) = eval_all_spec(p, xs, (k - 1) as nat, env, s, bound);
        match r {
            Ok(_) => {
                lemma_eval_keeps_forced(p, xs[k - 1], env, s1, bound);
            },
            Err(_) => {},
        }
    }
}

/// In one run no name is computed twice: the names whose values were not
/// in the cache when they were asked for are distinct.  So the body of a
/// declaration without arguments is evaluated at most once, however many
/// expressions ask for its value.
pub proof fn law_computed_once(p: ProgramView, args: Seq<String>)
    requires
        ordered(p),
    ensures
        run_main_spec(p, args).1.forced.no_duplicates(),
{
    let start = Store { memo: Map::empty(), forced: Seq::empty() };
    if p.funcs.contains_key("main"@) {
        lemma_body_below(p, "main"@);
    }
    lemma_call_once(p, "main"@, main_args(args), start, p.order.len());
}

} // verus!
