//! The syntax tree of a script, and the mathematical terms that stand for it
//! in contracts.

use crate::integer::Integer;
use vstd::prelude::*;

verus! {

/// A name as contracts see it.
pub type Name = Seq<char>;

/// An expression.  Types are expressions too: they are written with the
/// names `type`, `list`, `vector`, `tuple`, `int`, `uint`, `string`, `bool`,
/// `true` and `false`.
#[derive(Debug)]
pub enum Expr {
    Int(Integer),
    Var(String),
    Call(String, Vec<Expr>),
    Array(Vec<Expr>),
}

/// What an [`Expr`] denotes in contracts: the same tree over mathematical
/// integers and sequences.  Two expressions are structurally equal exactly
/// when their terms are equal.
pub enum Term {
    Int(int),
    Var(Name),
    Call(Name, Seq<Term>),
    Array(Seq<Term>),
}

impl View for Expr {
    type V = Term;

    open spec fn view(&self) -> Term
        decreases self,
    {
        match self {
            Expr::Int(n) => Term::Int(n@),
            Expr::Var(x) => Term::Var(x@),
            Expr::Call(f, xs) => Term::Call(
                f@,
                Seq::new(
                    xs.len() as nat,
                    |i: int|
                        if 0 <= i < xs.len() {
                            xs[i]@
                        } else {
                            Term::Int(0)
                        },
                ),
            ),
            Expr::Array(xs) => Term::Array(
                Seq::new(
                    xs.len() as nat,
                    |i: int|
                        if 0 <= i < xs.len() {
                            xs[i]@
                        } else {
                            Term::Int(0)
                        },
                ),
            ),
        }
    }
}

/// The terms of a sequence of expressions, one for one.
pub open spec fn terms(xs: Seq<Expr>) -> Seq<Term> {
    Seq::new(xs.len(), |i: int| xs[i]@)
}

/// The view of a compound expression is made of the terms of its parts.
pub proof fn lemma_view_compound(e: Expr)
    ensures
        e matches Expr::Call(f, xs) ==> e@ == Term::Call(f@, terms(xs@)),
        e matches Expr::Array(xs) ==> e@ == Term::Array(terms(xs@)),
{
    match e {
        Expr::Call(f, xs) => {
            assert(e@->Call_1 =~= terms(xs@));
        },
        Expr::Array(xs) => {
            assert(e@->Array_0 =~= terms(xs@));
        },
        _ => {},
    }
}

/// One declaration: its arguments, each with the expression of its type,
/// the expression of its return type, and its body.  The type of an
/// argument may mention the arguments before it; the return type and the
/// body may mention all of them.
#[derive(Debug)]
pub struct Decl {
    pub args: Vec<(String, Expr)>,
    pub ret: Expr,
    pub body: Expr,
}

/// What a list of arguments denotes in contracts.
pub open spec fn params(args: Seq<(String, Expr)>) -> Seq<(Name, Term)> {
    Seq::new(args.len(), |i: int| (args[i].0@, args[i].1@))
}

/// What a [`Decl`] denotes in contracts.
pub struct DeclView {
    pub args: Seq<(Name, Term)>,
    pub ret: Term,
    pub body: Term,
}

impl View for Decl {
    type V = DeclView;

    open spec fn view(&self) -> DeclView {
        DeclView { args: params(self.args@), ret: self.ret@, body: self.body@ }
    }
}

impl Clone for Decl {
    fn clone(&self) -> (r: Decl)
        ensures
            r@ == self@,
    {
        Decl { args: clone_params(&self.args), ret: self.ret.clone(), body: self.body.clone() }
    }
}

/// A script: named declarations in source order.
#[derive(Debug)]
pub struct Script {
    pub decls: Vec<(String, Decl)>,
}

impl View for Script {
    type V = Seq<(Name, DeclView)>;

    open spec fn view(&self) -> Seq<(Name, DeclView)> {
        Seq::new(self.decls@.len(), |i: int| (self.decls@[i].0@, self.decls@[i].1@))
    }
}

impl Clone for Script {
    fn clone(&self) -> (r: Script)
        ensures
            r@ == self@,
    {
        let mut decls: Vec<(String, Decl)> = Vec::new();
        let mut i: usize = 0;
        while i < self.decls.len()
            invariant
                i <= self.decls.len(),
                decls.len() == i,
                forall|j: int|
                    0 <= j < i ==> decls@[j].0@ == self.decls@[j].0@ && decls@[j].1@
                        == self.decls@[j].1@,
            decreases self.decls.len() - i,
        {
            let d = &self.decls[i];
            decls.push((d.0.clone(), d.1.clone()));
            i += 1;
        }
        let r = Script { decls };
        assert(r@ =~= self@);
        r
    }
}

/// A copy of a list of expressions, term for term.
pub fn clone_exprs(xs: &Vec<Expr>) -> (r: Vec<Expr>)
    ensures
        terms(r@) == terms(xs@),
    decreases xs,
{
    let mut r: Vec<Expr> = Vec::new();
    let mut i: usize = 0;
    while i < xs.len()
        invariant
            i <= xs.len(),
            r.len() == i,
            forall|j: int| 0 <= j < i ==> r@[j]@ == xs@[j]@,
        decreases xs.len() - i,
    {
        let x = xs[i].clone();
        r.push(x);
        i += 1;
    }
    assert(terms(r@) =~= terms(xs@));
    r
}

impl Clone for Expr {
    fn clone(&self) -> (r: Expr)
        ensures
            r@ == self@,
        decreases self,
    {
        proof {
            lemma_view_compound(*self);
        }
        let r = match self {
            Expr::Int(n) => Expr::Int(n.clone()),
            Expr::Var(x) => Expr::Var(x.clone()),
            Expr::Call(f, xs) => Expr::Call(f.clone(), clone_exprs(xs)),
            Expr::Array(xs) => Expr::Array(clone_exprs(xs)),
        };
        proof {
            lemma_view_compound(r);
        }
        r
    }
}

/// Whether two lists of expressions are equal term for term.
pub fn exprs_equal(xs: &Vec<Expr>, ys: &Vec<Expr>) -> (r: bool)
    ensures
        r == (terms(xs@) == terms(ys@)),
    decreases xs,
{
    if xs.len() != ys.len() {
        assert(terms(xs@).len() != terms(ys@).len());
        return false;
    }
    let mut i: usize = 0;
    while i < xs.len()
        invariant
            i <= xs.len(),
            xs.len() == ys.len(),
            forall|j: int| 0 <= j < i ==> xs@[j]@ == ys@[j]@,
        decreases xs.len() - i,
    {
        if !xs[i].equals(&ys[i]) {
            assert(terms(xs@)[i as int] != terms(ys@)[i as int]);
            return false;
        }
        i += 1;
    }
    assert(terms(xs@) =~= terms(ys@));
    true
}

impl Expr {
    /// Structural equality: the same tree, with the same names and numbers.
    pub fn equals(&self, other: &Expr) -> (r: bool)
        ensures
            r == (self@ == other@),
        decreases self,
    {
        proof {
            lemma_view_compound(*self);
            lemma_view_compound(*other);
        }
        match self {
            Expr::Int(a) => match other {
                Expr::Int(b) => a.equals(b),
                _ => false,
            },
            Expr::Var(a) => match other {
                Expr::Var(b) => *a == *b,
                _ => false,
            },
            Expr::Call(f, xs) => match other {
                Expr::Call(g, ys) => *f == *g && exprs_equal(xs, ys),
                _ => false,
            },
            Expr::Array(xs) => match other {
                Expr::Array(ys) => exprs_equal(xs, ys),
                _ => false,
            },
        }
    }

    /// The variable `name`.
    pub fn var(name: &str) -> (r: Expr)
        ensures
            r@ == Term::Var(name@),
    {
        Expr::Var(name.to_owned())
    }

    /// Whether the expression is the variable `label`.
    pub fn is_label(&self, label: &str) -> (r: bool)
        ensures
            r == (self@ == Term::Var(label@)),
    {
        match self {
            Expr::Var(t) => {
                let l = label.to_owned();
                *t == l
            },
            _ => false,
        }
    }
}

/// A copy of a list of arguments, term for term.
pub fn clone_params(args: &Vec<(String, Expr)>) -> (r: Vec<(String, Expr)>)
    ensures
        params(r@) == params(args@),
{
    let mut r: Vec<(String, Expr)> = Vec::new();
    let mut i: usize = 0;
    while i < args.len()
        invariant
            i <= args.len(),
            r.len() == i,
            forall|j: int| 0 <= j < i ==> r@[j].0@ == args@[j].0@ && r@[j].1@ == args@[j].1@,
        decreases args.len() - i,
    {
        let a = &args[i];
        r.push((a.0.clone(), a.1.clone()));
        i += 1;
    }
    assert(params(r@) =~= params(args@));
    r
}

} // verus!
