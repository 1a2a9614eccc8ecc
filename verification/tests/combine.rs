use justdep::ast::{Decl, Expr, Script};
use justdep::combine::{add_dependencies, combine, dependencies_of, CombineError, Func, Program};
use justdep::integer::Integer;

fn var(name: &str) -> Expr {
    Expr::Var(name.to_string())
}

fn call(name: &str, args: Vec<Expr>) -> Expr {
    Expr::Call(name.to_string(), args)
}

fn num(n: u32) -> Expr {
    Expr::Int(Integer::new(false, vec![n]))
}

fn decl(name: &str, args: Vec<(&str, Expr)>, ret: Expr, body: Expr) -> (String, Decl) {
    let args = args.into_iter().map(|(n, t)| (n.to_string(), t)).collect();
    (name.to_string(), Decl { args, ret, body })
}

fn builtin_prelude() -> Script {
    Script {
        decls: vec![
            decl("type", vec![], var("type"), var("type")),
            decl("uint", vec![], var("type"), var("uint")),
            decl("int", vec![], var("type"), var("int")),
            decl("string", vec![], var("type"), var("string")),
            decl("list", vec![("t", var("type"))], var("type"), var("list")),
        ],
    }
}

fn order_of(program: &Program) -> Vec<String> {
    program.order().clone()
}

fn names(list: &[&str]) -> Vec<String> {
    list.iter().map(|s| s.to_string()).collect()
}

#[test]
fn prelude_order_is_kept_and_user_follows_its_dependencies() {
    let user = Script {
        decls: vec![
            decl("a", vec![], var("uint"), var("b")),
            decl("b", vec![], var("uint"), var("c")),
            decl("c", vec![], var("uint"), num(1)),
        ],
    };
    let program = combine(&builtin_prelude(), &user).unwrap();
    assert_eq!(
        order_of(&program),
        names(&["type", "uint", "int", "string", "list", "c", "b", "a"])
    );
}

#[test]
fn every_dependency_precedes_its_dependent() {
    let user = Script {
        decls: vec![
            decl("top", vec![], var("uint"), call("pair", vec![var("left"), var("right")])),
            decl("pair", vec![], var("uint"), var("left")),
            decl("right", vec![], var("uint"), var("left")),
            decl("left", vec![], var("uint"), num(7)),
        ],
    };
    let program = combine(&builtin_prelude(), &user).unwrap();
    let order = order_of(&program);
    assert_eq!(order.len(), 9);
    for (name, func) in user.decls.iter() {
        let place = order.iter().position(|n| n == name).unwrap();
        assert!(place >= 5);
        let found: &Func = program.funcs().get(name).unwrap();
        for dep in dependencies_of(found) {
            let dep_place = order.iter().position(|n| *n == dep).unwrap();
            assert!(dep_place < place, "{} must precede {}", dep, name);
        }
        assert_eq!(func.args.len(), found.args.len());
        assert!(!found.prelude);
    }
    assert_eq!(order_of(&program)[5..].to_vec(), names(&["left", "pair", "right", "top"]));
}

#[test]
fn prelude_declarations_are_tagged() {
    let user = Script { decls: vec![decl("x", vec![], var("uint"), num(1))] };
    let program = combine(&builtin_prelude(), &user).unwrap();
    assert!(program.funcs().get(&"uint".to_string()).unwrap().prelude);
    assert!(!program.funcs().get(&"x".to_string()).unwrap().prelude);
    assert_eq!(program.funcs().len(), 6);
}

#[test]
fn mutual_recursion_is_rejected() {
    let user = Script {
        decls: vec![
            decl("a", vec![], var("uint"), call("b", vec![])),
            decl("b", vec![], var("uint"), call("a", vec![])),
        ],
    };
    match combine(&builtin_prelude(), &user) {
        Err(CombineError::Recursion(name)) => assert!(name == "a" || name == "b"),
        other => panic!("expected a recursion error, got {:?}", other.map(|p| order_of(&p))),
    }
}

#[test]
fn mutual_recursion_names_the_declaration_met_again() {
    let user = Script {
        decls: vec![
            decl("a", vec![], var("uint"), call("b", vec![])),
            decl("b", vec![], var("uint"), call("a", vec![])),
        ],
    };
    assert!(matches!(
        combine(&builtin_prelude(), &user),
        Err(CombineError::Recursion(name)) if name == "a"
    ));
}

#[test]
fn self_reference_is_rejected() {
    let user = Script { decls: vec![decl("loop", vec![], var("uint"), var("loop"))] };
    assert!(matches!(
        combine(&builtin_prelude(), &user),
        Err(CombineError::Recursion(name)) if name == "loop"
    ));
}

#[test]
fn longer_cycle_is_rejected() {
    let user = Script {
        decls: vec![
            decl("start", vec![], var("uint"), var("a")),
            decl("a", vec![], var("uint"), var("b")),
            decl("b", vec![], var("uint"), var("c")),
            decl("c", vec![], var("uint"), var("a")),
        ],
    };
    assert!(matches!(
        combine(&builtin_prelude(), &user),
        Err(CombineError::Recursion(name)) if name == "a"
    ));
}

#[test]
fn recursion_inside_the_prelude_is_not_looked_for() {
    let prelude = Script { decls: vec![decl("p", vec![], var("p"), var("p"))] };
    let user = Script { decls: vec![decl("x", vec![], var("p"), var("p"))] };
    let program = combine(&prelude, &user).unwrap();
    assert_eq!(order_of(&program), names(&["p", "x"]));
}

#[test]
fn duplicate_between_prelude_and_user() {
    let user = Script { decls: vec![decl("uint", vec![], var("type"), num(1))] };
    assert!(matches!(
        combine(&builtin_prelude(), &user),
        Err(CombineError::DuplicateDecl(name)) if name == "uint"
    ));
}

#[test]
fn duplicate_within_the_user_script() {
    let user = Script {
        decls: vec![
            decl("x", vec![], var("uint"), num(1)),
            decl("y", vec![], var("uint"), num(2)),
            decl("x", vec![], var("uint"), num(3)),
        ],
    };
    assert!(matches!(
        combine(&builtin_prelude(), &user),
        Err(CombineError::DuplicateDecl(name)) if name == "x"
    ));
}

#[test]
fn duplicate_within_the_prelude() {
    let prelude = Script {
        decls: vec![
            decl("t", vec![], var("t"), var("t")),
            decl("t", vec![], var("t"), var("t")),
        ],
    };
    let user = Script { decls: vec![] };
    assert!(matches!(
        combine(&prelude, &user),
        Err(CombineError::DuplicateDecl(name)) if name == "t"
    ));
}

#[test]
fn duplicate_is_reported_before_any_ordering() {
    let user = Script {
        decls: vec![
            decl("a", vec![], var("uint"), var("a")),
            decl("b", vec![], var("nowhere"), var("missing")),
            decl("a", vec![], var("uint"), num(3)),
        ],
    };
    assert!(matches!(
        combine(&builtin_prelude(), &user),
        Err(CombineError::DuplicateDecl(name)) if name == "a"
    ));
}

#[test]
fn unknown_name_is_no_such_decl() {
    let user = Script { decls: vec![decl("x", vec![], var("uint"), var("missing"))] };
    assert!(matches!(
        combine(&builtin_prelude(), &user),
        Err(CombineError::NoSuchDecl(name)) if name == "missing"
    ));
}

#[test]
fn argument_used_in_a_body_counts_as_a_dependency() {
    let user = Script {
        decls: vec![decl("same", vec![("x", var("uint"))], var("uint"), var("x"))],
    };
    assert!(matches!(
        combine(&builtin_prelude(), &user),
        Err(CombineError::NoSuchDecl(name)) if name == "x"
    ));
}

#[test]
fn dependencies_are_collected_in_first_occurrence_order() {
    let mut result = Vec::new();
    let expr = call(
        "f",
        vec![var("a"), Expr::Array(vec![var("b"), var("a"), num(3)]), call("g", vec![var("f")])],
    );
    add_dependencies(&expr, &mut result);
    assert_eq!(result, names(&["f", "a", "b", "g"]));
    add_dependencies(&var("z"), &mut result);
    add_dependencies(&var("a"), &mut result);
    assert_eq!(result, names(&["f", "a", "b", "g", "z"]));
}

#[test]
fn dependencies_of_a_declaration_go_by_args_then_return_then_body() {
    let func = Func {
        args: vec![("x".to_string(), var("tx")), ("y".to_string(), call("list", vec![var("x")]))],
        ret: var("r"),
        body: call("tx", vec![var("y"), var("body")]),
        prelude: false,
    };
    assert_eq!(dependencies_of(&func), names(&["tx", "list", "x", "r", "y", "body"]));
}

#[test]
fn empty_scripts_combine_to_an_empty_program() {
    let program = combine(&Script { decls: vec![] }, &Script { decls: vec![] }).unwrap();
    assert!(order_of(&program).is_empty());
    assert_eq!(program.funcs().len(), 0);
}

#[test]
fn copy_of_a_program_has_the_same_order_and_declarations() {
    let user = Script {
        decls: vec![
            decl("a", vec![], var("uint"), var("b")),
            decl("b", vec![("x", var("uint"))], var("uint"), num(1)),
        ],
    };
    let program = combine(&builtin_prelude(), &user).unwrap();
    let copy = program.clone();
    assert_eq!(order_of(&copy), order_of(&program));
    assert_eq!(copy.funcs().len(), program.funcs().len());
    for name in order_of(&program) {
        let one = program.funcs().get(&name).unwrap();
        let other = copy.funcs().get(&name).unwrap();
        assert_eq!(one.prelude, other.prelude);
        assert_eq!(one.args.len(), other.args.len());
        assert!(one.ret.equals(&other.ret));
        assert!(one.body.equals(&other.body));
    }
}
