//! The combiner: it merges the prelude and the user's script into one
//! program, orders the declarations so that each comes after what it
//! depends on, and rejects recursion.

use crate::ast::{
    clone_params, lemma_view_compound, params, terms, DeclView, Expr, Name, Script, Term,
};
use crate::namemap::NameMap;
use crate::laws::{
    all_names, declarations, declared_twice, law_combine_outcome, on_cycle, unresolved,
};
use crate::ordering::{lemma_combine_ordered, ordered};
use vstd::prelude::*;

verus! {

/// Why two scripts cannot be combined.
#[derive(Debug)]
pub enum CombineError {
    /// The name is declared twice.
    DuplicateDecl(String),
    /// A declaration mentions the name, and nothing declares it.
    NoSuchDecl(String),
    /// The declaration of this name depends on itself.
    Recursion(String),
}

/// What a [`CombineError`] denotes in contracts.
pub enum CombineFailure {
    DuplicateDecl(Name),
    NoSuchDecl(Name),
    Recursion(Name),
}

impl View for CombineError {
    type V = CombineFailure;

    open spec fn view(&self) -> CombineFailure {
        match self {
            CombineError::DuplicateDecl(n) => CombineFailure::DuplicateDecl(n@),
            CombineError::NoSuchDecl(n) => CombineFailure::NoSuchDecl(n@),
            CombineError::Recursion(n) => CombineFailure::Recursion(n@),
        }
    }
}

/// A declaration of a program: as it was written, and whether it came from
/// the prelude.
#[derive(Debug)]
pub struct Func {
    pub args: Vec<(String, Expr)>,
    pub ret: Expr,
    pub body: Expr,
    pub prelude: bool,
}

/// What a [`Func`] denotes in contracts.
pub struct FuncView {
    pub args: Seq<(Name, Term)>,
    pub ret: Term,
    pub body: Term,
    pub prelude: bool,
}

impl View for Func {
    type V = FuncView;

    open spec fn view(&self) -> FuncView {
        FuncView {
            args: params(self.args@),
            ret: self.ret@,
            body: self.body@,
            prelude: self.prelude,
        }
    }
}

impl Clone for Func {
    fn clone(&self) -> (r: Func)
        ensures
            r@ == self@,
    {
        Func {
            args: clone_params(&self.args),
            ret: self.ret.clone(),
            body: self.body.clone(),
            prelude: self.prelude,
        }
    }
}

/// The views of a list of names.
pub open spec fn names(v: Seq<String>) -> Seq<Name> {
    Seq::new(v.len(), |i: int| v[i]@)
}

/// `acc` with `x` at its end, unless `x` is in it already.
pub open spec fn push_new(acc: Seq<Name>, x: Name) -> Seq<Name> {
    if acc.contains(x) {
        acc
    } else {
        acc.push(x)
    }
}

/// `acc`, followed by the names that `t` mentions and `acc` does not hold,
/// each once, in the order in which a walk of `t` from the left first meets
/// them.  The name of a variable counts as the name of a called function
/// does.
pub open spec fn term_deps(t: Term, acc: Seq<Name>) -> Seq<Name>
    decreases t, 0nat,
{
    match t {
        Term::Int(_) => acc,
        Term::Var(x) => push_new(acc, x),
        Term::Call(f, xs) => terms_deps(xs, xs.len(), push_new(acc, f)),
        Term::Array(xs) => terms_deps(xs, xs.len(), acc),
    }
}

/// [`term_deps`] of the first `k` of `ts`, one after the other.
pub open spec fn terms_deps(ts: Seq<Term>, k: nat, acc: Seq<Name>) -> Seq<Name>
    decreases ts, k,
{
    if k == 0 || k > ts.len() {
        acc
    } else {
        term_deps(ts[k - 1], terms_deps(ts, (k - 1) as nat, acc))
    }
}

/// [`term_deps`] of the types of the first `k` of `args`, one after the
/// other.
pub open spec fn args_deps(args: Seq<(Name, Term)>, k: nat) -> Seq<Name>
    decreases k,
{
    if k == 0 {
        Seq::empty()
    } else {
        term_deps(args[k - 1].1, args_deps(args, (k - 1) as nat))
    }
}

/// The names that a declaration depends on: those that the types of its
/// arguments mention, then its return type, then its body; each once, in
/// the order of first occurrence.
pub open spec fn decl_deps(d: FuncView) -> Seq<Name> {
    term_deps(d.body, term_deps(d.ret, args_deps(d.args, d.args.len())))
}

/// Whether `v` holds the name `x`.
fn contains_name(v: &Vec<String>, x: &String) -> (r: bool)
    ensures
        r == names(v@).contains(x@),
{
    let mut i: usize = 0;
    while i < v.len()
        invariant
            i <= v.len(),
            forall|j: int| 0 <= j < i ==> names(v@)[j] != x@,
        decreases v.len() - i,
    {
        if v[i] == *x {
            assert(names(v@)[i as int] == x@);
            return true;
        }
        i += 1;
    }
    false
}

/// Puts `x` at the end of `result`, unless it is there already.
fn add_name(x: &String, result: &mut Vec<String>)
    ensures
        names(final(result)@) == push_new(names(old(result)@), x@),
{
    if !contains_name(result, x) {
        result.push(x.clone());
        assert(names(result@) =~= names(old(result)@).push(x@));
    }
}

/// Adds to `result` the names that `expr` mentions and `result` does not
/// hold yet.
pub fn add_dependencies(expr: &Expr, result: &mut Vec<String>)
    ensures
        names(final(result)@) == term_deps(expr@, names(old(result)@)),
    decreases expr,
{
    proof {
        lemma_view_compound(*expr);
    }
    match expr {
        Expr::Int(_) => {},
        Expr::Var(x) => {
            add_name(x, result);
        },
        Expr::Call(f, xs) => {
            add_name(f, result);
            let ghost start = names(result@);
            let mut i: usize = 0;
            while i < xs.len()
                invariant
                    i <= xs.len(),
                    decreases_to!(expr => xs),
                    names(result@) == terms_deps(terms(xs@), i as nat, start),
                decreases xs.len() - i,
            {
                assert(terms(xs@)[i as int] == xs@[i as int]@);
                add_dependencies(&xs[i], result);
                i += 1;
            }
        },
        Expr::Array(xs) => {
            let ghost start = names(result@);
            let mut i: usize = 0;
            while i < xs.len()
                invariant
                    i <= xs.len(),
                    decreases_to!(expr => xs),
                    names(result@) == terms_deps(terms(xs@), i as nat, start),
                decreases xs.len() - i,
            {
                assert(terms(xs@)[i as int] == xs@[i as int]@);
                add_dependencies(&xs[i], result);
                i += 1;
            }
        },
    }
}

/// The names that the declaration `func` depends on.
pub fn dependencies_of(func: &Func) -> (r: Vec<String>)
    ensures
        names(r@) == decl_deps(func@),
{
    let mut result: Vec<String> = Vec::new();
    assert(names(result@) =~= Seq::<Name>::empty());
    let mut i: usize = 0;
    while i < func.args.len()
        invariant
            i <= func.args.len(),
            names(result@) == args_deps(func@.args, i as nat),
        decreases func.args.len() - i,
    {
        assert(func@.args[i as int].1 == func.args@[i as int].1@);
        add_dependencies(&func.args[i].1, &mut result);
        i += 1;
    }
    assert(func@.args.len() == func.args@.len());
    add_dependencies(&func.ret, &mut result);
    add_dependencies(&func.body, &mut result);
    result
}

/// The names that the declaration of `name` depends on; `NoSuchDecl` where
/// nothing declares `name`.
pub fn get_dependencies(funcs: &NameMap<Func>, name: &String) -> (r: Result<
    Vec<String>,
    CombineError,
>)
    ensures
        match r {
            Ok(deps) => funcs@.contains_key(name@) && names(deps@) == decl_deps(funcs@[name@]),
            Err(e) => !funcs@.contains_key(name@) && e@ == CombineFailure::NoSuchDecl(name@),
        },
{
    match funcs.get(name) {
        Some(func) => Ok(dependencies_of(func)),
        None => Err(CombineError::NoSuchDecl(name.clone())),
    }
}

/// How far the ordering walk has come with a declaration.
#[derive(Clone, Copy, Debug)]
pub enum Mark {
    /// The walk is inside the declaration: among what it depends on.
    Visiting,
    /// The walk has left the declaration, which has its place in the order.
    Visited,
}

impl View for Mark {
    type V = Mark;

    open spec fn view(&self) -> Mark {
        *self
    }
}

/// The state of the ordering walk: the marks set so far, and the order
/// built so far.
pub struct Walk {
    pub marks: Map<Name, Mark>,
    pub order: Seq<Name>,
}

/// The ordering visit of the declaration `name`: a depth-first walk that
/// puts a declaration into the order once everything that it depends on is
/// there.
///
/// A name that is marked as visited is left alone.  One that is marked as
/// being visited depends on itself: `Recursion`.  One that nothing
/// declares: `NoSuchDecl`.  Otherwise the declaration is marked as being
/// visited, what it depends on is visited from the left, and then it is
/// marked as visited and put at the end of the order.
///
/// `depth` bounds how deep the walk may nest; a walk that runs out of it
/// gives up with `Recursion`.  A walk that does not meet a name twice on
/// one path never nests deeper than there are declarations, which is the
/// depth that [`combine_spec`] starts with: see [`lemma_path_grows`].  So
/// `Recursion` always names a declaration on a cycle, as
/// [`crate::laws::law_combine_outcome`] shows.
pub open spec fn visit(funcs: Map<Name, FuncView>, name: Name, w: Walk, depth: nat) -> Result<
    Walk,
    CombineFailure,
>
    decreases depth, 0nat, 0nat,
{
    if w.marks.contains_key(name) {
        match w.marks[name] {
            Mark::Visited => Ok(w),
            Mark::Visiting => Err(CombineFailure::Recursion(name)),
        }
    } else if !funcs.contains_key(name) {
        Err(CombineFailure::NoSuchDecl(name))
    } else if depth == 0 {
        Err(CombineFailure::Recursion(name))
    } else {
        let deps = decl_deps(funcs[name]);
        let inside = Walk { marks: w.marks.insert(name, Mark::Visiting), order: w.order };
        match visit_all(funcs, deps, deps.len(), inside, (depth - 1) as nat) {
            Err(e) => Err(e),
            Ok(w2) => Ok(
                Walk { marks: w2.marks.insert(name, Mark::Visited), order: w2.order.push(name) },
            ),
        }
    }
}

/// [`visit`] of the first `k` of `names`, one after the other; the first
/// error ends it.
pub open spec fn visit_all(
    funcs: Map<Name, FuncView>,
    names: Seq<Name>,
    k: nat,
    w: Walk,
    depth: nat,
) -> Result<Walk, CombineFailure>
    decreases depth, 1nat, k,
{
    if k == 0 {
        Ok(w)
    } else {
        match visit_all(funcs, names, (k - 1) as nat, w, depth) {
            Err(e) => Err(e),
            Ok(w1) => visit(funcs, names[k - 1], w1, depth),
        }
    }
}

/// `later` carries on from `earlier`: the order has only grown at its end,
/// no mark has changed, and every new mark says visited.
pub open spec fn extends(earlier: Walk, later: Walk) -> bool {
    &&& earlier.order.len() <= later.order.len()
    &&& forall|i: int| 0 <= i < earlier.order.len() ==> later.order[i] == earlier.order[i]
    &&& forall|n: Name| #[trigger]
        earlier.marks.contains_key(n) ==> later.marks.contains_key(n) && later.marks[n]
            == earlier.marks[n]
    &&& forall|n: Name| #[trigger]
        later.marks.contains_key(n) && !earlier.marks.contains_key(n) ==> later.marks[n]
            == Mark::Visited
}

/// A visit that succeeds carries on from where it started, and leaves the
/// name that it visited marked as visited.
pub proof fn lemma_visit_extends(funcs: Map<Name, FuncView>, name: Name, w: Walk, depth: nat)
    ensures
        visit(funcs, name, w, depth) matches Ok(w2) ==> extends(w, w2) && w2.marks.contains_key(
            name,
        ) && w2.marks[name] == Mark::Visited,
    decreases depth, 0nat, 0nat,
{
    if !w.marks.contains_key(name) && funcs.contains_key(name) && depth > 0 {
        let deps = decl_deps(funcs[name]);
        let inside = Walk { marks: w.marks.insert(name, Mark::Visiting), order: w.order };
        lemma_visit_all_extends(funcs, deps, deps.len(), inside, (depth - 1) as nat);
        match visit_all(funcs, deps, deps.len(), inside, (depth - 1) as nat) {
            Ok(w2) => {
                let done = Walk {
                    marks: w2.marks.insert(name, Mark::Visited),
                    order: w2.order.push(name),
                };
                assert(inside.marks.contains_key(name));
                assert forall|n: Name| #[trigger] w.marks.contains_key(n) implies done.marks.contains_key(
                    n,
                ) && done.marks[n] == w.marks[n] by {
                    assert(inside.marks.contains_key(n));
                }
                assert forall|n: Name| #[trigger]
                    done.marks.contains_key(n) && !w.marks.contains_key(n) implies done.marks[n]
                    == Mark::Visited by {
                    if n != name {
                        assert(w2.marks.contains_key(n));
                        assert(!inside.marks.contains_key(n));
                    }
                }
                assert(extends(w, done));
            },
            Err(_) => {},
        }
    }
}

/// [`lemma_visit_extends`] for [`visit_all`].
pub proof fn lemma_visit_all_extends(
    funcs: Map<Name, FuncView>,
    names: Seq<Name>,
    k: nat,
    w: Walk,
    depth: nat,
)
    requires
        k <= names.len(),
    ensures
        visit_all(funcs, names, k, w, depth) matches Ok(w2) ==> extends(w, w2) && forall|j: int|
            0 <= j < k ==> w2.marks.contains_key(#[trigger] names[j]) && w2.marks[names[j]]
                == Mark::Visited,
    decreases depth, 1nat, k,
{
    if k > 0 {
        lemma_visit_all_extends(funcs, names, (k - 1) as nat, w, depth);
        match visit_all(funcs, names, (k - 1) as nat, w, depth) {
            Ok(w1) => {
                lemma_visit_extends(funcs, names[k - 1], w1, depth);
            },
            Err(_) => {},
        }
    }
}

proof fn lemma_visit_all_err(
    funcs: Map<Name, FuncView>,
    names: Seq<Name>,
    k: nat,
    n: nat,
    w: Walk,
    depth: nat,
)
    requires
        k <= n,
        visit_all(funcs, names, k, w, depth) is Err,
    ensures
        visit_all(funcs, names, n, w, depth) == visit_all(funcs, names, k, w, depth),
    decreases n,
{
    if k < n {
        lemma_visit_all_err(funcs, names, k, (n - 1) as nat, w, depth);
    }
}

/// What the walk keeps of the path `stack` that it is on: its names are
/// distinct, declared and marked, and `depth` is enough for every
/// declaration that is not on it.
pub open spec fn on_path(
    funcs: Map<Name, FuncView>,
    marks: Map<Name, Mark>,
    stack: Seq<Name>,
    depth: nat,
) -> bool {
    &&& funcs.dom().finite()
    &&& stack.no_duplicates()
    &&& forall|i: int|
        0 <= i < stack.len() ==> funcs.contains_key(#[trigger] stack[i]) && marks.contains_key(
            stack[i],
        )
    &&& stack.len() + depth >= funcs.dom().len()
}

/// A declared name that is not marked leaves room to go one deeper.
pub proof fn lemma_path_grows(
    funcs: Map<Name, FuncView>,
    marks: Map<Name, Mark>,
    stack: Seq<Name>,
    depth: nat,
    name: Name,
)
    requires
        on_path(funcs, marks, stack, depth),
        funcs.contains_key(name),
        !marks.contains_key(name),
    ensures
        depth > 0,
        on_path(funcs, marks.insert(name, Mark::Visiting), stack.push(name), (depth - 1) as nat),
{
    let longer = stack.push(name);
    assert(longer.no_duplicates());
    longer.unique_seq_to_set();
    assert(longer.to_set().subset_of(funcs.dom())) by {
        assert forall|n: Name| longer.to_set().contains(n) implies funcs.dom().contains(n) by {
            let i = choose|i: int| 0 <= i < longer.len() && longer[i] == n;
            if i < stack.len() {
                assert(stack[i] == n);
            }
        }
    }
    vstd::set_lib::lemma_len_subset(longer.to_set(), funcs.dom());
}

/// The ordering visit of `name`, on the marks `visits` and the order
/// `order`.
#[verifier::loop_isolation(false)]
fn visit_for_ordering(
    funcs: &NameMap<Func>,
    order: &mut Vec<String>,
    name: &String,
    visits: &mut NameMap<Mark>,
    Ghost(depth): Ghost<nat>,
    Ghost(stack): Ghost<Seq<Name>>,
) -> (r: Result<(), CombineError>)
    requires
        on_path(funcs@, old(visits)@, stack, depth),
    ensures
        match r {
            Ok(()) => visit(
                funcs@,
                name@,
                Walk { marks: old(visits)@, order: names(old(order)@) },
                depth,
            ) == Ok::<Walk, CombineFailure>(
                Walk { marks: final(visits)@, order: names(final(order)@) },
            ),
            Err(e) => visit(
                funcs@,
                name@,
                Walk { marks: old(visits)@, order: names(old(order)@) },
                depth,
            ) == Err::<Walk, CombineFailure>(e@),
        },
        old(visits)@.contains_key(name@) ==> final(visits)@ == old(visits)@ && final(order)@
            == old(order)@,
    decreases depth,
{
    let ghost start = Walk { marks: visits@, order: names(order@) };
    match visits.get(name) {
        Some(v) => {
            return match v {
                Mark::Visited => Ok(()),
                Mark::Visiting => Err(CombineError::Recursion(name.clone())),
            };
        },
        None => {},
    }
    visits.insert(name.clone(), Mark::Visiting);
    let deps = match get_dependencies(funcs, name) {
        Ok(deps) => deps,
        Err(e) => {
            return Err(e);
        },
    };
    proof {
        lemma_path_grows(funcs@, start.marks, stack, depth, name@);
    }
    let ghost inside = Walk { marks: visits@, order: names(order@) };
    let ghost below = (depth - 1) as nat;
    let ghost path = stack.push(name@);
    let mut i: usize = 0;
    while i < deps.len()
        invariant
            i <= deps.len(),
            depth > 0,
            below == depth - 1,
            on_path(funcs@, visits@, path, below),
            visit_all(funcs@, names(deps@), i as nat, inside, below) == Ok::<Walk, CombineFailure>(
                Walk { marks: visits@, order: names(order@) },
            ),
        decreases deps.len() - i,
    {
        let ghost before = Walk { marks: visits@, order: names(order@) };
        assert(names(deps@)[i as int] == deps@[i as int]@);
        match visit_for_ordering(funcs, order, &deps[i], visits, Ghost(below), Ghost(path)) {
            Ok(()) => {
                proof {
                    lemma_visit_extends(funcs@, deps@[i as int]@, before, below);
                }
            },
            Err(e) => {
                proof {
                    lemma_visit_all_err(
                        funcs@,
                        names(deps@),
                        (i + 1) as nat,
                        deps@.len(),
                        inside,
                        below,
                    );
                }
                return Err(e);
            },
        }
        i += 1;
    }
    let ghost after = Walk { marks: visits@, order: names(order@) };
    visits.insert(name.clone(), Mark::Visited);
    order.push(name.clone());
    assert(names(order@) =~= after.order.push(name@));
    Ok(())
}

/// A declaration as the program holds it.
pub open spec fn func_of(d: DeclView, prelude: bool) -> FuncView {
    FuncView { args: d.args, ret: d.ret, body: d.body, prelude }
}

/// The names that a script declares, in source order.
pub open spec fn decl_names(decls: Seq<(Name, DeclView)>) -> Seq<Name> {
    Seq::new(decls.len(), |i: int| decls[i].0)
}

/// `m` with the first `k` of `decls` put in, in source order.  The first
/// name that is there already ends it with `DuplicateDecl`.
pub open spec fn merge(
    m: Map<Name, FuncView>,
    decls: Seq<(Name, DeclView)>,
    prelude: bool,
    k: nat,
) -> Result<Map<Name, FuncView>, CombineFailure>
    decreases k,
{
    if k == 0 {
        Ok(m)
    } else {
        match merge(m, decls, prelude, (k - 1) as nat) {
            Err(e) => Err(e),
            Ok(m1) => if m1.contains_key(decls[k - 1].0) {
                Err(CombineFailure::DuplicateDecl(decls[k - 1].0))
            } else {
                Ok(m1.insert(decls[k - 1].0, func_of(decls[k - 1].1, prelude)))
            },
        }
    }
}

/// The marks that say of each of the first `k` of `names` that it is
/// visited.
pub open spec fn visited_marks(names: Seq<Name>, k: nat) -> Map<Name, Mark>
    decreases k,
{
    if k == 0 {
        Map::empty()
    } else {
        visited_marks(names, (k - 1) as nat).insert(names[k - 1], Mark::Visited)
    }
}

/// What a [`Program`] denotes in contracts: the names of its declarations
/// in the order in which they are to be checked, and the declarations by
/// name.
pub struct ProgramView {
    pub order: Seq<Name>,
    pub funcs: Map<Name, FuncView>,
}

/// The program that the prelude and the user's script combine to.
///
/// The declarations of the prelude are put into one map, then those of the
/// user; a name that is there already is a `DuplicateDecl`.  The order
/// starts as the prelude's own, as it stands.  Then each declaration of
/// the user is visited, in source order: see [`visit`].
pub open spec fn combine_spec(
    prelude: Seq<(Name, DeclView)>,
    user: Seq<(Name, DeclView)>,
) -> Result<ProgramView, CombineFailure> {
    match merge(Map::empty(), prelude, true, prelude.len()) {
        Err(e) => Err(e),
        Ok(builtin) => match merge(builtin, user, false, user.len()) {
            Err(e) => Err(e),
            Ok(funcs) => {
                let start = Walk {
                    marks: visited_marks(decl_names(prelude), prelude.len()),
                    order: decl_names(prelude),
                };
                match visit_all(funcs, decl_names(user), user.len(), start, funcs.dom().len()) {
                    Err(e) => Err(e),
                    Ok(w) => Ok(ProgramView { order: w.order, funcs }),
                }
            },
        }
    }
}

proof fn lemma_merge_err(
    m: Map<Name, FuncView>,
    decls: Seq<(Name, DeclView)>,
    prelude: bool,
    k: nat,
    n: nat,
)
    requires
        k <= n,
        merge(m, decls, prelude, k) is Err,
    ensures
        merge(m, decls, prelude, n) == merge(m, decls, prelude, k),
    decreases n,
{
    if k < n {
        lemma_merge_err(m, decls, prelude, k, (n - 1) as nat);
    }
}

/// A combined program: every declaration of the prelude and of the user's
/// script under its name, and the order in which they are to be checked.
#[derive(Debug)]
pub struct Program {
    order: Vec<String>,
    funcs: NameMap<Func>,
}

impl View for Program {
    type V = ProgramView;

    closed spec fn view(&self) -> ProgramView {
        ProgramView { order: names(self.order@), funcs: self.funcs@ }
    }
}

impl Program {
    #[verifier::type_invariant]
    spec fn well_ordered(self) -> bool {
        ordered(self@)
    }

    /// The names of the declarations, in the order in which they are to be
    /// checked: those of the prelude first, and each declaration of the
    /// user after all that it depends on.
    pub fn order(&self) -> (r: &Vec<String>)
        ensures
            names(r@) == self@.order,
            ordered(self@),
    {
        proof {
            use_type_invariant(self);
        }
        &self.order
    }

    /// The declarations by name.
    pub fn funcs(&self) -> (r: &NameMap<Func>)
        ensures
            r@ == self@.funcs,
            ordered(self@),
    {
        proof {
            use_type_invariant(self);
        }
        &self.funcs
    }
}

impl Clone for Program {
    #[verifier::loop_isolation(false)]
    fn clone(&self) -> (r: Program)
        ensures
            r@ == self@,
    {
        proof {
            use_type_invariant(self);
        }
        let ghost listed = names(self.order@);
        let mut order: Vec<String> = Vec::new();
        let mut funcs: NameMap<Func> = NameMap::new();
        let mut i: usize = 0;
        while i < self.order.len()
            invariant
                i <= self.order.len(),
                order@.len() == i,
                forall|j: int| 0 <= j < i ==> order@[j]@ == self.order@[j]@,
                forall|n: Name| #[trigger]
                    funcs@.contains_key(n) ==> self.funcs@.contains_key(n) && funcs@[n]
                        == self.funcs@[n],
                forall|j: int| 0 <= j < i ==> funcs@.contains_key(#[trigger] listed[j]),
            decreases self.order.len() - i,
        {
            let name = &self.order[i];
            assert(listed[i as int] == name@);
            assert(listed.contains(name@));
            match self.funcs.get(name) {
                Some(func) => {
                    funcs.insert(name.clone(), func.clone());
                },
                None => {
                    assert(false);
                },
            }
            order.push(name.clone());
            i += 1;
        }
        proof {
            assert(names(order@) =~= listed);
            assert forall|n: Name| #[trigger] self.funcs@.contains_key(n) implies funcs@.contains_key(
                n,
            ) by {
                assert(listed.contains(n));
                let j = choose|j: int| 0 <= j < listed.len() && listed[j] == n;
                assert(funcs@.contains_key(listed[j]));
            }
            assert(funcs@ =~= self.funcs@);
        }
        Program { order, funcs }
    }
}

/// Puts the declarations of `script` into `funcs`, in source order.
fn insert_decls(funcs: &mut NameMap<Func>, script: &Script, prelude: bool) -> (r: Result<
    (),
    CombineError,
>)
    ensures
        match r {
            Ok(()) => merge(old(funcs)@, script@, prelude, script@.len()) == Ok::<
                Map<Name, FuncView>,
                CombineFailure,
            >(final(funcs)@),
            Err(e) => merge(old(funcs)@, script@, prelude, script@.len()) == Err::<
                Map<Name, FuncView>,
                CombineFailure,
            >(e@),
        },
{
    let mut i: usize = 0;
    while i < script.decls.len()
        invariant
            i <= script.decls.len(),
            merge(old(funcs)@, script@, prelude, i as nat) == Ok::<
                Map<Name, FuncView>,
                CombineFailure,
            >(funcs@),
        decreases script.decls.len() - i,
    {
        let name = &script.decls[i].0;
        let decl = &script.decls[i].1;
        assert(script@[i as int] == (name@, decl@));
        if funcs.contains_key(name) {
            proof {
                lemma_merge_err(old(funcs)@, script@, prelude, (i + 1) as nat, script@.len());
            }
            return Err(CombineError::DuplicateDecl(name.clone()));
        }
        let func = Func {
            args: clone_params(&decl.args),
            ret: decl.ret.clone(),
            body: decl.body.clone(),
            prelude,
        };
        assert(func@ == func_of(decl@, prelude));
        funcs.insert(name.clone(), func);
        i += 1;
    }
    Ok(())
}

/// Combines the prelude with the user's script: one namespace, and an
/// order in which every declaration of the user comes after all that it
/// depends on.
#[verifier::loop_isolation(false)]
pub fn combine(prelude_script: &Script, main_script: &Script) -> (r: Result<Program, CombineError>)
    ensures
        match r {
            Ok(p) => combine_spec(prelude_script@, main_script@) == Ok::<
                ProgramView,
                CombineFailure,
            >(p@),
            Err(e) => combine_spec(prelude_script@, main_script@) == Err::<
                ProgramView,
                CombineFailure,
            >(e@),
        },
        match r {
            Ok(p) => ordered(p@) && declarations(prelude_script@, main_script@) == Ok::<
                Map<Name, FuncView>,
                CombineFailure,
            >(p@.funcs),
            Err(CombineError::DuplicateDecl(x)) => declared_twice(
                all_names(prelude_script@, main_script@),
                x@,
            ),
            Err(CombineError::Recursion(x)) => declarations(prelude_script@, main_script@) is Ok
                && on_cycle(declarations(prelude_script@, main_script@)->Ok_0, x@),
            Err(CombineError::NoSuchDecl(x)) => declarations(prelude_script@, main_script@) is Ok
                && unresolved(declarations(prelude_script@, main_script@)->Ok_0, x@),
        },
{
    proof {
        law_combine_outcome(prelude_script@, main_script@);
    }
    let mut funcs: NameMap<Func> = NameMap::new();
    match insert_decls(&mut funcs, prelude_script, true) {
        Ok(()) => {},
        Err(e) => {
            return Err(e);
        },
    }
    match insert_decls(&mut funcs, main_script, false) {
        Ok(()) => {},
        Err(e) => {
            return Err(e);
        },
    }
    let mut order: Vec<String> = Vec::new();
    let mut visits: NameMap<Mark> = NameMap::new();
    let mut i: usize = 0;
    while i < prelude_script.decls.len()
        invariant
            i <= prelude_script.decls.len(),
            order@.len() == i,
            forall|j: int| 0 <= j < i ==> order@[j]@ == prelude_script.decls@[j].0@,
            visits@ == visited_marks(decl_names(prelude_script@), i as nat),
        decreases prelude_script.decls.len() - i,
    {
        let name = &prelude_script.decls[i].0;
        assert(decl_names(prelude_script@)[i as int] == name@);
        order.push(name.clone());
        visits.insert(name.clone(), Mark::Visited);
        i += 1;
    }
    assert(names(order@) =~= decl_names(prelude_script@));
    let depth = funcs.len();
    let ghost start = Walk { marks: visits@, order: names(order@) };
    let mut i: usize = 0;
    while i < main_script.decls.len()
        invariant
            i <= main_script.decls.len(),
            funcs@.dom().finite(),
            depth == funcs@.dom().len(),
            visit_all(
                funcs@,
                decl_names(main_script@),
                i as nat,
                start,
                depth as nat,
            ) == Ok::<Walk, CombineFailure>(Walk { marks: visits@, order: names(order@) }),
        decreases main_script.decls.len() - i,
    {
        let name = &main_script.decls[i].0;
        assert(decl_names(main_script@)[i as int] == name@);
        match visit_for_ordering(
            &funcs,
            &mut order,
            name,
            &mut visits,
            Ghost(depth as nat),
            Ghost(Seq::empty()),
        ) {
            Ok(()) => {},
            Err(e) => {
                proof {
                    lemma_visit_all_err(
                        funcs@,
                        decl_names(main_script@),
                        (i + 1) as nat,
                        main_script@.len(),
                        start,
                        depth as nat,
                    );
                }
                return Err(e);
            },
        }
        i += 1;
    }
    proof {
        lemma_combine_ordered(prelude_script@, main_script@);
    }
    Ok(Program { order, funcs })
}

} // verus!
