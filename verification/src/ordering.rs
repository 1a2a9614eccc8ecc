//! What the order of a combined program is worth: the invariant that the
//! ordering walk keeps, and the proof that it ends in an order in which
//! every declaration of the user follows what it depends on.

use crate::ast::{DeclView, Name, Term};
use crate::combine::{
    combine_spec, decl_deps, decl_names, func_of, lemma_visit_all_extends, merge, push_new,
    term_deps, terms_deps, visit, visit_all, visited_marks, FuncView, Mark, ProgramView, Walk,
};
use vstd::prelude::*;

verus! {

/// Whether `d` stands in `order` at a place before `i`.
pub open spec fn occurs_before(order: Seq<Name>, d: Name, i: int) -> bool {
    exists|j: int| 0 <= j < i && j < order.len() && #[trigger] order[j] == d
}

/// Whether everything that the declaration at place `i` of `order` depends
/// on stands before it.
pub open spec fn deps_precede(funcs: Map<Name, FuncView>, order: Seq<Name>, i: int) -> bool {
    forall|d: Name| #[trigger]
        decl_deps(funcs[order[i]]).contains(d) ==> occurs_before(order, d, i)
}

/// The invariant of a combined program.  Its order names every declaration
/// once, those of the prelude first, and every declaration of the user
/// comes after all that it depends on.
pub open spec fn ordered(p: ProgramView) -> bool {
    &&& p.funcs.dom().finite()
    &&& p.order.no_duplicates()
    &&& forall|n: Name| #[trigger] p.order.contains(n) ==> p.funcs.contains_key(n)
    &&& forall|n: Name| #[trigger] p.funcs.contains_key(n) ==> p.order.contains(n)
    &&& forall|i: int|
        0 <= i < p.order.len() && !p.funcs[#[trigger] p.order[i]].prelude ==> deps_precede(
            p.funcs,
            p.order,
            i,
        )
    &&& forall|i: int, j: int|
        0 <= i < j < p.order.len() && p.funcs[#[trigger] p.order[j]].prelude
            ==> p.funcs[#[trigger] p.order[i]].prelude
}

/// The invariant of the ordering walk over the declarations `funcs`, of
/// which the first `npre` of the order are the prelude's.
pub open spec fn walk_ok(funcs: Map<Name, FuncView>, w: Walk, npre: nat) -> bool {
    &&& npre <= w.order.len()
    &&& w.order.no_duplicates()
    &&& forall|n: Name| #[trigger]
        w.order.contains(n) ==> w.marks.contains_key(n) && w.marks[n] == Mark::Visited
    &&& forall|n: Name|
        w.marks.contains_key(n) && #[trigger] w.marks[n] == Mark::Visited ==> w.order.contains(n)
    &&& forall|i: int|
        0 <= i < w.order.len() ==> funcs.contains_key(#[trigger] w.order[i]) && (funcs[w.order[i]].prelude
            <==> i < npre)
    &&& forall|i: int| npre <= i < w.order.len() ==> #[trigger] deps_precede(funcs, w.order, i)
    &&& forall|n: Name| #[trigger]
        funcs.contains_key(n) && funcs[n].prelude ==> w.marks.contains_key(n)
}

/// A visit that succeeds keeps the invariant of the walk.
pub proof fn lemma_visit_sound(
    funcs: Map<Name, FuncView>,
    name: Name,
    w: Walk,
    depth: nat,
    npre: nat,
)
    requires
        walk_ok(funcs, w, npre),
    ensures
        visit(funcs, name, w, depth) matches Ok(w2) ==> walk_ok(funcs, w2, npre),
    decreases depth, 0nat, 0nat,
{
    if !w.marks.contains_key(name) && funcs.contains_key(name) && depth > 0 {
        let deps = decl_deps(funcs[name]);
        let inside = Walk { marks: w.marks.insert(name, Mark::Visiting), order: w.order };
        let below = (depth - 1) as nat;
        assert(walk_ok(funcs, inside, npre)) by {
            assert forall|n: Name|
                inside.marks.contains_key(n) && #[trigger] inside.marks[n]
                    == Mark::Visited implies inside.order.contains(n) by {
                assert(n != name);
                assert(w.marks.contains_key(n) && w.marks[n] == Mark::Visited);
            }
            assert forall|n: Name| #[trigger] inside.order.contains(n) implies inside.marks.contains_key(
                n,
            ) && inside.marks[n] == Mark::Visited by {
                assert(w.order.contains(n));
            }
        }
        lemma_visit_all_sound(funcs, deps, deps.len(), inside, below, npre);
        lemma_visit_all_extends(funcs, deps, deps.len(), inside, below);
        match visit_all(funcs, deps, deps.len(), inside, below) {
            Ok(w2) => {
                let done = Walk {
                    marks: w2.marks.insert(name, Mark::Visited),
                    order: w2.order.push(name),
                };
                let last = w2.order.len() as int;
                assert(inside.marks.contains_key(name));
                assert(w2.marks[name] == Mark::Visiting);
                assert(!w2.order.contains(name));
                assert(done.order.no_duplicates()) by {
                    assert forall|i: int, j: int|
                        0 <= i < done.order.len() && 0 <= j < done.order.len() && i
                            != j implies done.order[i] != done.order[j] by {
                        if i < last && j < last {
                        } else if i < last {
                            assert(w2.order.contains(w2.order[i]));
                        } else {
                            assert(w2.order.contains(w2.order[j]));
                        }
                    }
                }
                assert forall|n: Name| #[trigger] done.order.contains(n) implies done.marks.contains_key(
                    n,
                ) && done.marks[n] == Mark::Visited by {
                    let i = choose|i: int| 0 <= i < done.order.len() && done.order[i] == n;
                    if i < last {
                        assert(w2.order[i] == n);
                        assert(w2.order.contains(n));
                    }
                }
                assert forall|n: Name|
                    done.marks.contains_key(n) && #[trigger] done.marks[n]
                        == Mark::Visited implies done.order.contains(n) by {
                    if n == name {
                        assert(done.order[last] == n);
                    } else {
                        assert(w2.marks.contains_key(n) && w2.marks[n] == Mark::Visited);
                        assert(w2.order.contains(n));
                        let i = choose|i: int| 0 <= i < w2.order.len() && w2.order[i] == n;
                        assert(done.order[i] == n);
                    }
                }
                assert(!funcs[name].prelude);
                assert forall|i: int| 0 <= i < done.order.len() implies funcs.contains_key(
                    #[trigger] done.order[i],
                ) && (funcs[done.order[i]].prelude <==> i < npre) by {
                    if i < last {
                        assert(done.order[i] == w2.order[i]);
                    }
                }
                assert forall|i: int| npre <= i < done.order.len() implies #[trigger] deps_precede(
                    funcs,
                    done.order,
                    i,
                ) by {
                    if i < last {
                        assert(deps_precede(funcs, w2.order, i));
                        assert(done.order[i] == w2.order[i]);
                        assert forall|d: Name| #[trigger]
                            decl_deps(funcs[done.order[i]]).contains(d) implies occurs_before(
                            done.order,
                            d,
                            i,
                        ) by {
                            assert(occurs_before(w2.order, d, i));
                            let j = choose|j: int|
                                0 <= j < i && j < w2.order.len() && #[trigger] w2.order[j] == d;
                            assert(done.order[j] == d);
                        }
                    } else {
                        assert(done.order[i] == name);
                        assert forall|d: Name| #[trigger] deps.contains(d) implies occurs_before(
                            done.order,
                            d,
                            i,
                        ) by {
                            let k = choose|k: int| 0 <= k < deps.len() && deps[k] == d;
                            assert(w2.marks.contains_key(deps[k]) && w2.marks[deps[k]]
                                == Mark::Visited);
                            assert(w2.order.contains(d));
                            let j = choose|j: int| 0 <= j < w2.order.len() && w2.order[j] == d;
                            assert(done.order[j] == d);
                        }
                    }
                }
                assert forall|n: Name| #[trigger]
                    funcs.contains_key(n) && funcs[n].prelude implies done.marks.contains_key(
                    n,
                ) by {
                    assert(w.marks.contains_key(n));
                    assert(inside.marks.contains_key(n));
                }
                assert(walk_ok(funcs, done, npre));
            },
            Err(_) => {},
        }
    }
}

/// [`lemma_visit_sound`] for [`visit_all`].
pub proof fn lemma_visit_all_sound(
    funcs: Map<Name, FuncView>,
    names: Seq<Name>,
    k: nat,
    w: Walk,
    depth: nat,
    npre: nat,
)
    requires
        walk_ok(funcs, w, npre),
        k <= names.len(),
    ensures
        visit_all(funcs, names, k, w, depth) matches Ok(w2) ==> walk_ok(funcs, w2, npre),
    decreases depth, 1nat, k,
{
    if k > 0 {
        lemma_visit_all_sound(funcs, names, (k - 1) as nat, w, depth, npre);
        match visit_all(funcs, names, (k - 1) as nat, w, depth) {
            Ok(w1) => {
                lemma_visit_sound(funcs, names[k - 1], w1, depth, npre);
            },
            Err(_) => {},
        }
    }
}

/// What a merge that succeeds has done: the names put in are new and
/// distinct, each is bound to its declaration, and nothing else changed.
pub proof fn lemma_merge(
    m: Map<Name, FuncView>,
    decls: Seq<(Name, DeclView)>,
    prelude: bool,
    k: nat,
)
    requires
        k <= decls.len(),
    ensures
        merge(m, decls, prelude, k) matches Ok(m2) ==> {
            &&& forall|i: int| 0 <= i < k ==> !m.contains_key(#[trigger] decls[i].0)
            &&& forall|i: int, j: int|
                0 <= i < j < k ==> #[trigger] decls[i].0 != #[trigger] decls[j].0
            &&& forall|n: Name| #[trigger]
                m.contains_key(n) ==> m2.contains_key(n) && m2[n] == m[n]
            &&& forall|i: int|
                0 <= i < k ==> m2.contains_key(#[trigger] decls[i].0) && m2[decls[i].0] == func_of(
                    decls[i].1,
                    prelude,
                )
            &&& forall|n: Name| #[trigger]
                m2.contains_key(n) ==> m.contains_key(n) || exists|i: int|
                    0 <= i < k && #[trigger] decls[i].0 == n
            &&& m.dom().finite() ==> m2.dom().finite()
        },
    decreases k,
{
    if k > 0 {
        lemma_merge(m, decls, prelude, (k - 1) as nat);
        match merge(m, decls, prelude, (k - 1) as nat) {
            Ok(m1) => {
                let n = decls[k - 1].0;
                if !m1.contains_key(n) {
                    let m2 = m1.insert(n, func_of(decls[k - 1].1, prelude));
                    assert forall|i: int| 0 <= i < k implies !m.contains_key(
                        #[trigger] decls[i].0,
                    ) by {
                        if i == k - 1 {
                            if m.contains_key(n) {
                                assert(m1.contains_key(n));
                            }
                        }
                    }
                    assert forall|i: int, j: int| 0 <= i < j < k implies #[trigger] decls[i].0
                        != #[trigger] decls[j].0 by {
                        if j == k - 1 {
                            assert(m1.contains_key(decls[i].0));
                        }
                    }
                    assert forall|n2: Name| #[trigger] m2.contains_key(n2) implies m.contains_key(
                        n2,
                    ) || exists|i: int| 0 <= i < k && #[trigger] decls[i].0 == n2 by {
                        if n2 == n {
                            assert(decls[k - 1].0 == n2);
                        } else {
                            assert(m1.contains_key(n2));
                            if !m.contains_key(n2) {
                                let i = choose|i: int| 0 <= i < k - 1 && #[trigger] decls[i].0 == n2;
                                assert(decls[i].0 == n2);
                            }
                        }
                    }
                    assert forall|i: int| 0 <= i < k implies m2.contains_key(
                        #[trigger] decls[i].0,
                    ) && m2[decls[i].0] == func_of(decls[i].1, prelude) by {
                        if i < k - 1 {
                            assert(m1.contains_key(decls[i].0));
                        }
                    }
                }
            },
            Err(_) => {},
        }
    }
}

/// The first `k` names, and no others, are marked by [`visited_marks`].
pub proof fn lemma_visited_marks(names: Seq<Name>, k: nat)
    requires
        k <= names.len(),
    ensures
        forall|i: int|
            0 <= i < k ==> visited_marks(names, k).contains_key(#[trigger] names[i]),
        forall|n: Name| #[trigger]
            visited_marks(names, k).contains_key(n) ==> visited_marks(names, k)[n]
                == Mark::Visited && exists|i: int| 0 <= i < k && #[trigger] names[i] == n,
    decreases k,
{
    if k > 0 {
        lemma_visited_marks(names, (k - 1) as nat);
        let before = visited_marks(names, (k - 1) as nat);
        assert forall|n: Name| #[trigger] visited_marks(names, k).contains_key(n) implies exists|
            i: int,
        |
            0 <= i < k && #[trigger] names[i] == n by {
            if n == names[k - 1] {
            } else {
                assert(before.contains_key(n));
                let i = choose|i: int| 0 <= i < k - 1 && #[trigger] names[i] == n;
                assert(names[i] == n);
            }
        }
    }
}

/// The program that a combination gives is ordered.
pub proof fn lemma_combine_ordered(prelude: Seq<(Name, DeclView)>, user: Seq<(Name, DeclView)>)
    ensures
        combine_spec(prelude, user) matches Ok(p) ==> ordered(p),
{
    let empty = Map::<Name, FuncView>::empty();
    lemma_merge(empty, prelude, true, prelude.len());
    match merge(empty, prelude, true, prelude.len()) {
        Ok(builtin) => {
            lemma_merge(builtin, user, false, user.len());
            match merge(builtin, user, false, user.len()) {
                Ok(funcs) => {
                    let pre = decl_names(prelude);
                    let usr = decl_names(user);
                    let npre = prelude.len();
                    let start = Walk { marks: visited_marks(pre, npre), order: pre };
                    let depth = funcs.dom().len();
                    lemma_visited_marks(pre, npre);
                    assert(walk_ok(funcs, start, npre)) by {
                        assert forall|n: Name| #[trigger] start.order.contains(n) implies start.marks.contains_key(
                        n) && start.marks[n] == Mark::Visited by {
                            let i = choose|i: int| 0 <= i < pre.len() && pre[i] == n;
                            assert(start.marks.contains_key(pre[i]));
                        }
                        assert forall|n: Name|
                            start.marks.contains_key(n) && #[trigger] start.marks[n]
                                == Mark::Visited implies start.order.contains(n) by {
                            let i = choose|i: int| 0 <= i < npre && #[trigger] pre[i] == n;
                            assert(pre[i] == n);
                        }
                        assert forall|i: int| 0 <= i < start.order.len() implies funcs.contains_key(
                            #[trigger] start.order[i],
                        ) && (funcs[start.order[i]].prelude <==> i < npre) by {
                            assert(pre[i] == prelude[i].0);
                            assert(builtin.contains_key(prelude[i].0));
                        }
                        assert forall|n: Name| #[trigger]
                            funcs.contains_key(n) && funcs[n].prelude implies start.marks.contains_key(
                        n) by {
                            if builtin.contains_key(n) {
                                let i = choose|i: int| 0 <= i < npre && #[trigger] prelude[i].0 == n;
                                assert(pre[i] == n);
                            } else {
                                let i = choose|i: int|
                                    0 <= i < user.len() && #[trigger] user[i].0 == n;
                                assert(funcs[user[i].0] == func_of(user[i].1, false));
                            }
                        }
                        assert forall|i: int, j: int|
                            0 <= i < pre.len() && 0 <= j < pre.len() && i != j implies pre[i]
                            != pre[j] by {
                            if i < j {
                                assert(prelude[i].0 != prelude[j].0);
                            } else {
                                assert(prelude[j].0 != prelude[i].0);
                            }
                        }
                    }
                    lemma_visit_all_sound(funcs, usr, user.len(), start, depth, npre);
                    lemma_visit_all_extends(funcs, usr, user.len(), start, depth);
                    match visit_all(funcs, usr, user.len(), start, depth) {
                        Ok(w) => {
                            let p = ProgramView { order: w.order, funcs };
                            assert forall|n: Name| #[trigger] p.order.contains(n) implies p.funcs.contains_key(
                            n) by {
                                let i = choose|i: int| 0 <= i < w.order.len() && w.order[i] == n;
                                assert(funcs.contains_key(w.order[i]));
                            }
                            assert forall|n: Name| #[trigger] p.funcs.contains_key(n) implies p.order.contains(
                            n) by {
                                if builtin.contains_key(n) {
                                    let i = choose|i: int|
                                        0 <= i < npre && #[trigger] prelude[i].0 == n;
                                    assert(pre[i] == n);
                                    assert(w.order[i] == n);
                                } else {
                                    let i = choose|i: int|
                                        0 <= i < user.len() && #[trigger] user[i].0 == n;
                                    assert(usr[i] == n);
                                    assert(w.marks.contains_key(usr[i]) && w.marks[usr[i]]
                                        == Mark::Visited);
                                }
                            }
                            assert forall|i: int|
                                0 <= i < p.order.len() && !p.funcs[#[trigger] p.order[i]].prelude implies deps_precede(
                            p.funcs, p.order, i) by {
                                assert(funcs.contains_key(w.order[i]));
                            }
                            assert forall|i: int, j: int|
                                0 <= i < j < p.order.len() && p.funcs[#[trigger] p.order[j]].prelude implies p.funcs[#[trigger] p.order[i]].prelude by {
                                assert(funcs.contains_key(w.order[j]));
                                assert(funcs.contains_key(w.order[i]));
                            }
                            assert(ordered(p));
                        },
                        Err(_) => {},
                    }
                },
                Err(_) => {},
            }
        },
        Err(_) => {},
    }
}

/// Whether the name `n` occurs in the term `t`, as a variable or as the
/// name of a called function.
pub open spec fn mentions(t: Term, n: Name) -> bool
    decreases t,
{
    match t {
        Term::Int(_) => false,
        Term::Var(x) => x == n,
        Term::Call(f, xs) => if f == n {
            true
        } else {
            exists|i: int| 0 <= i < xs.len() && mentions(#[trigger] xs[i], n)
        },
        Term::Array(xs) => exists|i: int| 0 <= i < xs.len() && mentions(#[trigger] xs[i], n),
    }
}

/// A name that a part of a compound term mentions, the compound mentions.
pub proof fn lemma_mentions_part(f: Name, xs: Seq<Term>, i: int, n: Name)
    requires
        0 <= i < xs.len(),
        mentions(xs[i], n),
    ensures
        mentions(Term::Call(f, xs), n),
        mentions(Term::Array(xs), n),
{
    let a = Term::Array(xs);
    assert(a->Array_0 == xs);
    assert(mentions(a->Array_0[i], n));
    assert(mentions(a, n));
    let c = Term::Call(f, xs);
    assert(c->Call_1 == xs);
    assert(mentions(c->Call_1[i], n));
    assert(mentions(c, n));
}

proof fn lemma_push_new_keeps(acc: Seq<Name>, x: Name, n: Name)
    requires
        acc.contains(n) || x == n,
    ensures
        push_new(acc, x).contains(n),
{
    if acc.contains(n) {
        let i = choose|i: int| 0 <= i < acc.len() && acc[i] == n;
        assert(acc.push(x)[i] == n);
    } else {
        assert(acc.push(x)[acc.len() as int] == n);
    }
}

/// The dependencies collected so far stay collected.
pub proof fn lemma_term_deps_keep(t: Term, acc: Seq<Name>, n: Name)
    requires
        acc.contains(n),
    ensures
        term_deps(t, acc).contains(n),
    decreases t, 0nat,
{
    match t {
        Term::Int(_) => {},
        Term::Var(x) => {
            lemma_push_new_keeps(acc, x, n);
        },
        Term::Call(f, xs) => {
            lemma_push_new_keeps(acc, f, n);
            lemma_terms_deps_keep(xs, xs.len(), push_new(acc, f), n);
        },
        Term::Array(xs) => {
            lemma_terms_deps_keep(xs, xs.len(), acc, n);
        },
    }
}

/// [`lemma_term_deps_keep`] for [`terms_deps`].
pub proof fn lemma_terms_deps_keep(ts: Seq<Term>, k: nat, acc: Seq<Name>, n: Name)
    requires
        acc.contains(n),
        k <= ts.len(),
    ensures
        terms_deps(ts, k, acc).contains(n),
    decreases ts, k,
{
    if k > 0 {
        lemma_terms_deps_keep(ts, (k - 1) as nat, acc, n);
        lemma_term_deps_keep(ts[k - 1], terms_deps(ts, (k - 1) as nat, acc), n);
    }
}

/// Every name that a term mentions is among its dependencies.
pub proof fn lemma_term_deps_cover(t: Term, acc: Seq<Name>, n: Name)
    requires
        mentions(t, n),
    ensures
        term_deps(t, acc).contains(n),
    decreases t, 0nat,
{
    match t {
        Term::Int(_) => {},
        Term::Var(x) => {
            lemma_push_new_keeps(acc, x, n);
        },
        Term::Call(f, xs) => {
            if f == n {
                lemma_push_new_keeps(acc, f, n);
                lemma_terms_deps_keep(xs, xs.len(), push_new(acc, f), n);
            } else {
                let i = choose|i: int| 0 <= i < xs.len() && mentions(#[trigger] xs[i], n);
                lemma_terms_deps_cover(xs, xs.len(), push_new(acc, f), n, i);
            }
        },
        Term::Array(xs) => {
            let i = choose|i: int| 0 <= i < xs.len() && mentions(#[trigger] xs[i], n);
            lemma_terms_deps_cover(xs, xs.len(), acc, n, i);
        },
    }
}

/// [`lemma_term_deps_cover`] for [`terms_deps`].
pub proof fn lemma_terms_deps_cover(ts: Seq<Term>, k: nat, acc: Seq<Name>, n: Name, i: int)
    requires
        0 <= i < k <= ts.len(),
        mentions(ts[i], n),
    ensures
        terms_deps(ts, k, acc).contains(n),
    decreases ts, k,
{
    if i == k - 1 {
        lemma_term_deps_cover(ts[k - 1], terms_deps(ts, (k - 1) as nat, acc), n);
    } else {
        lemma_terms_deps_cover(ts, (k - 1) as nat, acc, n, i);
        lemma_term_deps_keep(ts[k - 1], terms_deps(ts, (k - 1) as nat, acc), n);
    }
}

/// Whether the declaration `f` is one of the user's.
pub open spec fn is_user(p: ProgramView, f: Name) -> bool {
    p.funcs.contains_key(f) && !p.funcs[f].prelude
}

/// Whether every declaration of the user that the term `t` mentions
/// stands in the order before the place `bound`.
pub open spec fn below(p: ProgramView, t: Term, bound: nat) -> bool {
    forall|n: Name| #[trigger] mentions(t, n) && is_user(p, n) ==> 0 <= p.order.index_of(n) < bound
}

/// In an ordered program every declaration has its place in the order,
/// and the body of a declaration of the user mentions only what stands
/// before it.
pub proof fn lemma_body_below(p: ProgramView, f: Name)
    requires
        ordered(p),
        p.funcs.contains_key(f),
    ensures
        0 <= p.order.index_of(f) < p.order.len(),
        p.order[p.order.index_of(f)] == f,
        !p.funcs[f].prelude ==> below(p, p.funcs[f].body, p.order.index_of(f) as nat),
{
    assert(p.order.contains(f));
    let i = p.order.index_of(f);
    if !p.funcs[f].prelude {
        assert forall|n: Name| #[trigger] mentions(p.funcs[f].body, n) && is_user(p, n) implies 0
            <= p.order.index_of(n) < i by {
            let d = p.funcs[f];
            lemma_term_deps_cover(d.body, term_deps(d.ret, crate::combine::args_deps(d.args, d.args.len())), n);
            assert(decl_deps(p.funcs[p.order[i]]).contains(n));
            assert(deps_precede(p.funcs, p.order, i));
            assert(occurs_before(p.order, n, i));
            let j = choose|j: int| 0 <= j < i && j < p.order.len() && #[trigger] p.order[j] == n;
            assert(p.order.contains(n));
            let k = p.order.index_of(n);
            assert(p.order[k] == n);
            assert(k == j);
        }
    }
}

} // verus!
