//! What holds of the combiner for every pair of scripts: when it succeeds,
//! when it fails, and with what.

use crate::ast::{DeclView, Name};
use crate::combine::{
    combine_spec, decl_deps, decl_names, lemma_path_grows, lemma_visit_all_extends,
    lemma_visit_extends, merge, on_path, visit, visit_all, visited_marks, CombineFailure, FuncView,
    Mark, ProgramView, Walk,
};
use crate::ordering::{
    deps_precede, is_user, lemma_combine_ordered, lemma_merge, lemma_visited_marks, occurs_before,
    ordered,
};
use vstd::prelude::*;

verus! {

/// The declarations of both scripts under their names, where no name is
/// declared twice.
pub open spec fn declarations(
    prelude: Seq<(Name, DeclView)>,
    user: Seq<(Name, DeclView)>,
) -> Result<Map<Name, FuncView>, CombineFailure> {
    match merge(Map::empty(), prelude, true, prelude.len()) {
        Err(e) => Err(e),
        Ok(builtin) => merge(builtin, user, false, user.len()),
    }
}

/// A cycle among the declarations of the user: each depends on the next,
/// and the last on the first.  One declaration that depends on itself is a
/// cycle.
pub open spec fn is_cycle(funcs: Map<Name, FuncView>, path: Seq<Name>) -> bool {
    &&& path.len() > 0
    &&& forall|i: int|
        0 <= i < path.len() ==> funcs.contains_key(#[trigger] path[i]) && !funcs[path[i]].prelude
    &&& forall|i: int|
        0 <= i < path.len() - 1 ==> decl_deps(funcs[#[trigger] path[i]]).contains(path[i + 1])
    &&& decl_deps(funcs[path.last()]).contains(path[0])
}

/// Whether the declaration `x` lies on a cycle.
pub open spec fn on_cycle(funcs: Map<Name, FuncView>, x: Name) -> bool {
    exists|path: Seq<Name>| #[trigger] is_cycle(funcs, path) && path[0] == x
}

/// Whether no declaration of the user depends on itself, directly or
/// through others of the user's.
pub open spec fn acyclic(funcs: Map<Name, FuncView>) -> bool {
    forall|path: Seq<Name>| !#[trigger] is_cycle(funcs, path)
}

/// Whether a declaration of the user depends on the name `x`, which
/// nothing declares.
pub open spec fn unresolved(funcs: Map<Name, FuncView>, x: Name) -> bool {
    &&& !funcs.contains_key(x)
    &&& exists|a: Name|
        funcs.contains_key(a) && !funcs[a].prelude && #[trigger] decl_deps(funcs[a]).contains(x)
}

/// Whether everything that a declaration of the user depends on is
/// declared.
pub open spec fn resolved(funcs: Map<Name, FuncView>) -> bool {
    forall|x: Name| !#[trigger] unresolved(funcs, x)
}

/// What the walk knows of the path that it is on: its names are exactly
/// those marked as being visited, they are the user's, each depends on the
/// next, and the prelude is marked throughout.
pub open spec fn path_ok(funcs: Map<Name, FuncView>, w: Walk, stack: Seq<Name>) -> bool {
    &&& forall|i: int|
        0 <= i < stack.len() ==> !funcs[#[trigger] stack[i]].prelude && w.marks[stack[i]]
            == Mark::Visiting
    &&& forall|n: Name|
        w.marks.contains_key(n) && #[trigger] w.marks[n] == Mark::Visiting ==> stack.contains(n)
    &&& forall|i: int|
        0 <= i < stack.len() - 1 ==> decl_deps(funcs[#[trigger] stack[i]]).contains(stack[i + 1])
    &&& forall|n: Name| #[trigger]
        funcs.contains_key(n) && funcs[n].prelude ==> w.marks.contains_key(n)
}

/// What an ordering visit fails with, and why: `Recursion` names a
/// declaration on a cycle, and `NoSuchDecl` a name that nothing declares
/// and that is the one visited or one that a declaration of the user
/// depends on.
pub open spec fn failure_ok(funcs: Map<Name, FuncView>, e: CombineFailure, name: Name) -> bool {
    match e {
        CombineFailure::Recursion(x) => on_cycle(funcs, x),
        CombineFailure::NoSuchDecl(x) => !funcs.contains_key(x) && (x == name || unresolved(
            funcs,
            x,
        )),
        CombineFailure::DuplicateDecl(_) => false,
    }
}

/// A visit fails only for a reason: see [`failure_ok`].
pub proof fn lemma_visit_fails(
    funcs: Map<Name, FuncView>,
    name: Name,
    w: Walk,
    depth: nat,
    stack: Seq<Name>,
)
    requires
        on_path(funcs, w.marks, stack, depth),
        path_ok(funcs, w, stack),
        stack.len() > 0 ==> decl_deps(funcs[stack.last()]).contains(name),
    ensures
        visit(funcs, name, w, depth) matches Err(e) ==> failure_ok(funcs, e, name),
    decreases depth, 0nat, 0nat,
{
    if w.marks.contains_key(name) {
        if w.marks[name] == Mark::Visiting {
            assert(stack.contains(name));
            let k = choose|k: int| 0 <= k < stack.len() && stack[k] == name;
            let path = stack.subrange(k, stack.len() as int);
            assert(is_cycle(funcs, path)) by {
                assert forall|i: int| 0 <= i < path.len() implies funcs.contains_key(
                    #[trigger] path[i],
                ) && !funcs[path[i]].prelude by {
                    assert(path[i] == stack[k + i]);
                }
                assert forall|i: int| 0 <= i < path.len() - 1 implies decl_deps(
                    funcs[#[trigger] path[i]],
                ).contains(path[i + 1]) by {
                    assert(path[i] == stack[k + i]);
                    assert(path[i + 1] == stack[k + i + 1]);
                }
                assert(path.last() == stack.last());
                assert(path[0] == name);
            }
            assert(path[0] == name);
        }
    } else if funcs.contains_key(name) {
        lemma_path_grows(funcs, w.marks, stack, depth, name);
        let deps = decl_deps(funcs[name]);
        let inside = Walk { marks: w.marks.insert(name, Mark::Visiting), order: w.order };
        let longer = stack.push(name);
        assert(path_ok(funcs, inside, longer)) by {
            assert forall|i: int| 0 <= i < longer.len() implies !funcs[#[trigger] longer[i]].prelude
                && inside.marks[longer[i]] == Mark::Visiting by {
                if i < stack.len() {
                    assert(longer[i] == stack[i]);
                }
            }
            assert forall|n: Name|
                inside.marks.contains_key(n) && #[trigger] inside.marks[n]
                    == Mark::Visiting implies longer.contains(n) by {
                if n == name {
                    assert(longer[stack.len() as int] == n);
                } else {
                    assert(w.marks[n] == Mark::Visiting);
                    assert(stack.contains(n));
                    let i = choose|i: int| 0 <= i < stack.len() && stack[i] == n;
                    assert(longer[i] == n);
                }
            }
            assert forall|i: int| 0 <= i < longer.len() - 1 implies decl_deps(
                funcs[#[trigger] longer[i]],
            ).contains(longer[i + 1]) by {
                if i < stack.len() - 1 {
                    assert(longer[i] == stack[i]);
                    assert(longer[i + 1] == stack[i + 1]);
                } else {
                    assert(longer[i] == stack.last());
                }
            }
            assert forall|n: Name| #[trigger]
                funcs.contains_key(n) && funcs[n].prelude implies inside.marks.contains_key(n) by {
                assert(w.marks.contains_key(n));
            }
        }
        lemma_visit_all_fails(funcs, deps, deps.len(), inside, (depth - 1) as nat, longer);
        match visit_all(funcs, deps, deps.len(), inside, (depth - 1) as nat) {
            Err(e) => {
                match e {
                    CombineFailure::NoSuchDecl(x) => {
                        if !unresolved(funcs, x) {
                            let j = choose|j: int| 0 <= j < deps.len() && deps[j] == x;
                            assert(decl_deps(funcs[name]).contains(x));
                        }
                    },
                    _ => {},
                }
            },
            Ok(_) => {},
        }
    }
}

/// [`lemma_visit_fails`] for [`visit_all`]: the names are what the last
/// declaration on the path depends on, or, where the path is empty,
/// any names.
pub proof fn lemma_visit_all_fails(
    funcs: Map<Name, FuncView>,
    names: Seq<Name>,
    k: nat,
    w: Walk,
    depth: nat,
    stack: Seq<Name>,
)
    requires
        k <= names.len(),
        on_path(funcs, w.marks, stack, depth),
        path_ok(funcs, w, stack),
        stack.len() > 0 ==> names == decl_deps(funcs[stack.last()]),
    ensures
        visit_all(funcs, names, k, w, depth) matches Err(e) ==> exists|j: int|
            0 <= j < k && failure_ok(funcs, e, #[trigger] names[j]),
        visit_all(funcs, names, k, w, depth) matches Ok(w2) ==> on_path(
            funcs,
            w2.marks,
            stack,
            depth,
        ) && path_ok(funcs, w2, stack),
    decreases depth, 1nat, k,
{
    if k > 0 {
        lemma_visit_all_fails(funcs, names, (k - 1) as nat, w, depth, stack);
        match visit_all(funcs, names, (k - 1) as nat, w, depth) {
            Ok(w1) => {
                let name = names[k - 1];
                lemma_visit_fails(funcs, name, w1, depth, stack);
                lemma_visit_extends(funcs, name, w1, depth);
                match visit(funcs, name, w1, depth) {
                    Ok(w2) => {
                        assert(path_ok(funcs, w2, stack)) by {
                            assert forall|i: int| 0 <= i < stack.len() implies !funcs[#[trigger] stack[i]].prelude
                                && w2.marks[stack[i]] == Mark::Visiting by {
                                assert(w1.marks.contains_key(stack[i]));
                            }
                            assert forall|n: Name|
                                w2.marks.contains_key(n) && #[trigger] w2.marks[n]
                                    == Mark::Visiting implies stack.contains(n) by {
                                if w1.marks.contains_key(n) {
                                    assert(w1.marks[n] == Mark::Visiting);
                                }
                            }
                            assert forall|n: Name| #[trigger]
                                funcs.contains_key(n) && funcs[n].prelude implies w2.marks.contains_key(
                            n) by {
                                assert(w1.marks.contains_key(n));
                            }
                        }
                        assert(on_path(funcs, w2.marks, stack, depth)) by {
                            assert forall|i: int| 0 <= i < stack.len() implies funcs.contains_key(
                                #[trigger] stack[i],
                            ) && w2.marks.contains_key(stack[i]) by {
                                assert(w1.marks.contains_key(stack[i]));
                            }
                        }
                    },
                    Err(e) => {
                        assert(failure_ok(funcs, e, names[k - 1]));
                    },
                }
            },
            Err(e) => {
                let j = choose|j: int| 0 <= j < k - 1 && failure_ok(funcs, e, #[trigger] names[j]);
                assert(failure_ok(funcs, e, names[j]));
            },
        }
    }
}

/// The names that both scripts declare, the prelude's first.
pub open spec fn all_names(prelude: Seq<(Name, DeclView)>, user: Seq<(Name, DeclView)>) -> Seq<
    Name,
> {
    decl_names(prelude) + decl_names(user)
}

/// Whether the name `x` is declared twice.
pub open spec fn declared_twice(names: Seq<Name>, x: Name) -> bool {
    exists|i: int, j: int| 0 <= i < j < names.len() && #[trigger] names[i] == x && #[trigger] names[j] == x
}

/// A merge fails only with `DuplicateDecl`, of a name that was there
/// when its turn came.
proof fn lemma_merge_fails(
    m: Map<Name, FuncView>,
    decls: Seq<(Name, DeclView)>,
    prelude: bool,
    k: nat,
)
    requires
        k <= decls.len(),
    ensures
        merge(m, decls, prelude, k) matches Err(e) ==> exists|j: int|
            0 <= j < k && e == CombineFailure::DuplicateDecl(#[trigger] decls[j].0) && (
            m.contains_key(decls[j].0) || exists|i: int|
                0 <= i < j && #[trigger] decls[i].0 == decls[j].0),
    decreases k,
{
    if k > 0 {
        lemma_merge_fails(m, decls, prelude, (k - 1) as nat);
        lemma_merge(m, decls, prelude, (k - 1) as nat);
        match merge(m, decls, prelude, (k - 1) as nat) {
            Ok(m1) => {
                if m1.contains_key(decls[k - 1].0) {
                    let j = k - 1;
                    assert(m.contains_key(decls[j].0) || exists|i: int|
                        0 <= i < j && #[trigger] decls[i].0 == decls[j].0);
                }
            },
            Err(e) => {
                let j = choose|j: int|
                    0 <= j < k - 1 && e == CombineFailure::DuplicateDecl(#[trigger] decls[j].0) && (
                    m.contains_key(decls[j].0) || exists|i: int|
                        0 <= i < j && #[trigger] decls[i].0 == decls[j].0);
                assert(decls[j].0 == decls[j].0);
            },
        }
    }
}

/// What holds of the declarations where no name is declared twice: the
/// names are distinct, every one is bound, those of the prelude are tagged
/// as such and marked from the start, and the path of the walk is empty.
proof fn lemma_declarations(prelude: Seq<(Name, DeclView)>, user: Seq<(Name, DeclView)>)
    ensures
        declarations(prelude, user) matches Ok(funcs) ==> {
            let start = Walk {
                marks: visited_marks(decl_names(prelude), prelude.len()),
                order: decl_names(prelude),
            };
            &&& all_names(prelude, user).no_duplicates()
            &&& funcs.dom().finite()
            &&& forall|i: int|
                0 <= i < user.len() ==> funcs.contains_key(#[trigger] decl_names(user)[i])
            &&& forall|n: Name| #[trigger]
                funcs.contains_key(n) ==> all_names(prelude, user).contains(n)
            &&& on_path(funcs, start.marks, Seq::empty(), funcs.dom().len())
            &&& path_ok(funcs, start, Seq::empty())
        },
{
    let empty = Map::<Name, FuncView>::empty();
    lemma_merge(empty, prelude, true, prelude.len());
    match merge(empty, prelude, true, prelude.len()) {
        Ok(builtin) => {
            lemma_merge(builtin, user, false, user.len());
            match merge(builtin, user, false, user.len()) {
                Ok(funcs) => {
                    let pre = decl_names(prelude);
                    let usr = decl_names(user);
                    let all = all_names(prelude, user);
                    let npre = prelude.len() as int;
                    let start = Walk { marks: visited_marks(pre, prelude.len()), order: pre };
                    lemma_visited_marks(pre, prelude.len());
                    assert forall|i: int, j: int|
                        0 <= i < all.len() && 0 <= j < all.len() && i != j implies all[i]
                        != all[j] by {
                        let (a, b) = if i < j {
                            (i, j)
                        } else {
                            (j, i)
                        };
                        if b < npre {
                            assert(prelude[a].0 != prelude[b].0);
                        } else if a < npre {
                            assert(builtin.contains_key(prelude[a].0));
                            assert(!builtin.contains_key(user[b - npre].0));
                        } else {
                            assert(user[a - npre].0 != user[b - npre].0);
                        }
                    }
                    assert forall|i: int| 0 <= i < user.len() implies funcs.contains_key(
                        #[trigger] usr[i],
                    ) by {
                        assert(funcs.contains_key(user[i].0));
                    }
                    assert forall|n: Name| #[trigger] funcs.contains_key(n) implies all.contains(
                        n,
                    ) by {
                        if builtin.contains_key(n) {
                            let i = choose|i: int| 0 <= i < npre && #[trigger] prelude[i].0 == n;
                            assert(all[i] == n);
                        } else {
                            let i = choose|i: int|
                                0 <= i < user.len() && #[trigger] user[i].0 == n;
                            assert(all[npre + i] == n);
                        }
                    }
                    assert forall|n: Name| #[trigger]
                        funcs.contains_key(n) && funcs[n].prelude implies start.marks.contains_key(
                        n,
                    ) by {
                        if builtin.contains_key(n) {
                            let i = choose|i: int| 0 <= i < npre && #[trigger] prelude[i].0 == n;
                            assert(pre[i] == n);
                        } else {
                            let i = choose|i: int|
                                0 <= i < user.len() && #[trigger] user[i].0 == n;
                            assert(funcs[user[i].0] == crate::combine::func_of(user[i].1, false));
                        }
                    }
                    assert forall|n: Name|
                        start.marks.contains_key(n) && #[trigger] start.marks[n]
                            == Mark::Visiting implies Seq::<Name>::empty().contains(n) by {
                    }
                },
                Err(_) => {},
            }
        },
        Err(_) => {},
    }
}

/// An ordered program has no cycle among the declarations of the user.
pub proof fn lemma_ordered_acyclic(p: ProgramView)
    requires
        ordered(p),
    ensures
        acyclic(p.funcs),
{
    assert forall|path: Seq<Name>| !#[trigger] is_cycle(p.funcs, path) by {
        if is_cycle(p.funcs, path) {
            lemma_descending(p, path, path.len() - 1);
            lemma_edge_descends(p, path.last(), path[0]);
        }
    }
}

/// In an ordered program a declaration of the user stands after what it
/// depends on.
proof fn lemma_edge_descends(p: ProgramView, a: Name, b: Name)
    requires
        ordered(p),
        is_user(p, a),
        decl_deps(p.funcs[a]).contains(b),
    ensures
        p.order.contains(a),
        p.order.contains(b),
        p.order.index_of(b) < p.order.index_of(a),
{
    assert(p.order.contains(a));
    let i = p.order.index_of(a);
    assert(p.order[i] == a);
    assert(deps_precede(p.funcs, p.order, i));
    assert(occurs_before(p.order, b, i));
    let j = choose|j: int| 0 <= j < i && j < p.order.len() && #[trigger] p.order[j] == b;
    assert(p.order.contains(b));
    let k = p.order.index_of(b);
    assert(p.order[k] == b);
    assert(k == j);
}

/// Along a cycle the places in the order would go down and down.
proof fn lemma_descending(p: ProgramView, path: Seq<Name>, i: int)
    requires
        ordered(p),
        is_cycle(p.funcs, path),
        0 <= i < path.len(),
    ensures
        p.order.index_of(path[i]) <= p.order.index_of(path[0]) - i,
    decreases i,
{
    if i > 0 {
        lemma_descending(p, path, i - 1);
        assert(p.funcs.contains_key(path[i - 1]));
        lemma_edge_descends(p, path[i - 1], path[i]);
    }
}

/// What combining gives, for every pair of scripts.
///
/// Where it succeeds, the program holds the declarations of both scripts
/// and is ordered.  Where it fails with `DuplicateDecl`, the name is
/// declared twice; with `Recursion`, the declaration lies on a cycle among
/// those of the user; with `NoSuchDecl`, a declaration of the user depends
/// on the name and nothing declares it.
pub proof fn law_combine_outcome(prelude: Seq<(Name, DeclView)>, user: Seq<(Name, DeclView)>)
    ensures
        match combine_spec(prelude, user) {
            Ok(p) => declarations(prelude, user) == Ok::<Map<Name, FuncView>, CombineFailure>(
                p.funcs,
            ) && ordered(p),
            Err(CombineFailure::DuplicateDecl(x)) => declared_twice(all_names(prelude, user), x),
            Err(CombineFailure::Recursion(x)) => declarations(prelude, user) matches Ok(funcs)
                && on_cycle(funcs, x),
            Err(CombineFailure::NoSuchDecl(x)) => declarations(prelude, user) matches Ok(funcs)
                && unresolved(funcs, x),
        },
{
    let empty = Map::<Name, FuncView>::empty();
    let all = all_names(prelude, user);
    let npre = prelude.len() as int;
    lemma_combine_ordered(prelude, user);
    lemma_declarations(prelude, user);
    lemma_merge_fails(empty, prelude, true, prelude.len());
    match merge(empty, prelude, true, prelude.len()) {
        Err(e) => {
            let j = choose|j: int|
                0 <= j < prelude.len() && e == CombineFailure::DuplicateDecl(
                    #[trigger] prelude[j].0,
                ) && (empty.contains_key(prelude[j].0) || exists|i: int|
                    0 <= i < j && #[trigger] prelude[i].0 == prelude[j].0);
            let i = choose|i: int| 0 <= i < j && #[trigger] prelude[i].0 == prelude[j].0;
            assert(all[i] == prelude[j].0 && all[j] == prelude[j].0);
        },
        Ok(builtin) => {
            lemma_merge(empty, prelude, true, prelude.len());
            lemma_merge_fails(builtin, user, false, user.len());
            match merge(builtin, user, false, user.len()) {
                Err(e) => {
                    let j = choose|j: int|
                        0 <= j < user.len() && e == CombineFailure::DuplicateDecl(
                            #[trigger] user[j].0,
                        ) && (builtin.contains_key(user[j].0) || exists|i: int|
                            0 <= i < j && #[trigger] user[i].0 == user[j].0);
                    assert(all[npre + j] == user[j].0);
                    if builtin.contains_key(user[j].0) {
                        let i = choose|i: int|
                            0 <= i < npre && #[trigger] prelude[i].0 == user[j].0;
                        assert(all[i] == user[j].0);
                    } else {
                        let i = choose|i: int| 0 <= i < j && #[trigger] user[i].0 == user[j].0;
                        assert(all[npre + i] == user[j].0);
                    }
                },
                Ok(funcs) => {
                    let start = Walk {
                        marks: visited_marks(decl_names(prelude), prelude.len()),
                        order: decl_names(prelude),
                    };
                    let usr = decl_names(user);
                    lemma_visit_all_fails(
                        funcs,
                        usr,
                        user.len(),
                        start,
                        funcs.dom().len(),
                        Seq::empty(),
                    );
                    match visit_all(funcs, usr, user.len(), start, funcs.dom().len()) {
                        Err(e) => {
                            let j = choose|j: int|
                                0 <= j < user.len() && failure_ok(funcs, e, #[trigger] usr[j]);
                            assert(funcs.contains_key(usr[j]));
                        },
                        Ok(_) => {},
                    }
                },
            }
        },
    }
}

/// Where no name is declared twice, everything that a declaration of the
/// user depends on is declared, and no declaration of the user depends on
/// itself, combining succeeds.  The order that it gives names every
/// declaration once, those of the prelude first, and every declaration of
/// the user after all that it depends on.  Where the prelude is itself
/// written in such an order, so is the whole.
pub proof fn law_acyclic_combines(prelude: Seq<(Name, DeclView)>, user: Seq<(Name, DeclView)>)
    requires
        declarations(prelude, user) matches Ok(funcs) && acyclic(funcs) && resolved(funcs),
    ensures
        combine_spec(prelude, user) matches Ok(p) && ordered(p) && ((forall|i: int|
            0 <= i < prelude.len() ==> #[trigger] deps_precede(
                declarations(prelude, user)->Ok_0,
                decl_names(prelude),
                i,
            )) ==> forall|i: int| 0 <= i < p.order.len() ==> #[trigger] deps_precede(
            p.funcs,
            p.order,
            i,
        )),
{
    law_combine_outcome(prelude, user);
    law_duplicate_is_reported(prelude, user);
    lemma_declarations(prelude, user);
    let funcs = declarations(prelude, user)->Ok_0;
    match combine_spec(prelude, user) {
        Ok(p) => {
            let pre = decl_names(prelude);
            let npre = prelude.len() as int;
            lemma_visit_all_extends(
                funcs,
                decl_names(user),
                user.len(),
                Walk { marks: visited_marks(pre, prelude.len()), order: pre },
                funcs.dom().len(),
            );
            if forall|i: int| 0 <= i < prelude.len() ==> #[trigger] deps_precede(funcs, pre, i) {
                assert forall|i: int| 0 <= i < p.order.len() implies #[trigger] deps_precede(
                    p.funcs,
                    p.order,
                    i,
                ) by {
                    if i < npre {
                        assert(deps_precede(funcs, pre, i));
                        assert(p.order[i] == pre[i]);
                        assert forall|d: Name| #[trigger]
                            decl_deps(p.funcs[p.order[i]]).contains(d) implies occurs_before(
                            p.order,
                            d,
                            i,
                        ) by {
                            assert(occurs_before(pre, d, i));
                            let j = choose|j: int|
                                0 <= j < i && j < pre.len() && #[trigger] pre[j] == d;
                            assert(p.order[j] == d);
                        }
                    } else {
                        assert(p.funcs.contains_key(p.order[i])) by {
                            assert(p.order.contains(p.order[i]));
                        }
                        if p.funcs[p.order[i]].prelude {
                            lemma_declarations(prelude, user);
                            lemma_merge(Map::empty(), prelude, true, prelude.len());
                            let builtin = merge(Map::empty(), prelude, true, prelude.len())->Ok_0;
                            lemma_merge(builtin, user, false, user.len());
                            lemma_prelude_stands_first(prelude, user, p, i);
                        }
                    }
                }
            }
        },
        Err(CombineFailure::Recursion(x)) => {
            let path = choose|path: Seq<Name>| #[trigger] is_cycle(funcs, path) && path[0] == x;
            assert(is_cycle(funcs, path));
        },
        Err(CombineFailure::NoSuchDecl(x)) => {
            assert(unresolved(funcs, x));
        },
        Err(CombineFailure::DuplicateDecl(_)) => {},
    }
}

/// In the order of a combined program, a declaration of the prelude stands
/// among the first, where the prelude's own names stand.
proof fn lemma_prelude_stands_first(
    prelude: Seq<(Name, DeclView)>,
    user: Seq<(Name, DeclView)>,
    p: ProgramView,
    i: int,
)
    requires
        combine_spec(prelude, user) == Ok::<ProgramView, CombineFailure>(p),
        0 <= i < p.order.len(),
        p.funcs.contains_key(p.order[i]),
        p.funcs[p.order[i]].prelude,
    ensures
        i < prelude.len(),
{
    let empty = Map::<Name, FuncView>::empty();
    let pre = decl_names(prelude);
    lemma_merge(empty, prelude, true, prelude.len());
    let builtin = merge(empty, prelude, true, prelude.len())->Ok_0;
    lemma_merge(builtin, user, false, user.len());
    let funcs = p.funcs;
    let start = Walk { marks: visited_marks(pre, prelude.len()), order: pre };
    lemma_visit_all_extends(funcs, decl_names(user), user.len(), start, funcs.dom().len());
    lemma_combine_ordered(prelude, user);
    let n = p.order[i];
    if !builtin.contains_key(n) {
        let k = choose|k: int| 0 <= k < user.len() && #[trigger] user[k].0 == n;
        assert(funcs[user[k].0] == crate::combine::func_of(user[k].1, false));
    }
    let k = choose|k: int| 0 <= k < prelude.len() && #[trigger] prelude[k].0 == n;
    assert(pre[k] == n);
    assert(p.order[k] == n);
}

/// Where no name is declared twice, everything that a declaration of the
/// user depends on is declared, and some declaration of the user depends
/// on itself, directly or through others of the user's, combining fails
/// with `Recursion`, and names a declaration that lies on a cycle.
pub proof fn law_cycle_is_recursion(
    prelude: Seq<(Name, DeclView)>,
    user: Seq<(Name, DeclView)>,
    path: Seq<Name>,
)
    requires
        declarations(prelude, user) matches Ok(funcs) && resolved(funcs) && is_cycle(funcs, path),
    ensures
        combine_spec(prelude, user) matches Err(CombineFailure::Recursion(x)) && on_cycle(
            declarations(prelude, user)->Ok_0,
            x,
        ),
{
    law_combine_outcome(prelude, user);
    law_duplicate_is_reported(prelude, user);
    lemma_declarations(prelude, user);
    let funcs = declarations(prelude, user)->Ok_0;
    match combine_spec(prelude, user) {
        Ok(p) => {
            lemma_ordered_acyclic(p);
            assert(!is_cycle(p.funcs, path));
        },
        Err(CombineFailure::NoSuchDecl(x)) => {
            assert(unresolved(funcs, x));
        },
        _ => {},
    }
}

/// A name that is declared twice, in the prelude, in the user's script or
/// once in each, makes combining fail with `DuplicateDecl`, whatever the
/// declarations depend on; where no name is declared twice, it does not
/// fail so.
pub proof fn law_duplicate_is_reported(prelude: Seq<(Name, DeclView)>, user: Seq<(Name, DeclView)>)
    ensures
        !all_names(prelude, user).no_duplicates() <==> combine_spec(prelude, user) matches Err(
            CombineFailure::DuplicateDecl(_),
        ),
        combine_spec(prelude, user) matches Err(CombineFailure::DuplicateDecl(x))
            ==> declared_twice(all_names(prelude, user), x),
{
    law_combine_outcome(prelude, user);
    lemma_declarations(prelude, user);
    let all = all_names(prelude, user);
    match combine_spec(prelude, user) {
        Err(CombineFailure::DuplicateDecl(x)) => {
            let (i, j) = choose|i: int, j: int|
                0 <= i < j < all.len() && #[trigger] all[i] == x && #[trigger] all[j] == x;
            assert(all[i] == all[j]);
        },
        _ => {
            assert(declarations(prelude, user) is Ok);
        },
    }
}

} // verus!
