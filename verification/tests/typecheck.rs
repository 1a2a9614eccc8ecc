use justdep::ast::{Decl, Expr, Script};
use justdep::combine::{combine, Func};
use justdep::integer::Integer;
use justdep::namemap::NameMap;
use justdep::typecheck::{
    can_coerce_type, can_prove_equal, can_prove_equal_usize, check_arg_is_of_type_type,
    check_expr, check_func, type_check, CheckedFunc, TypeError,
};

fn var(name: &str) -> Expr {
    Expr::Var(name.to_string())
}

fn call(name: &str, args: Vec<Expr>) -> Expr {
    Expr::Call(name.to_string(), args)
}

fn num(n: u32) -> Expr {
    Expr::Int(Integer::new(false, vec![n]))
}

fn neg(n: u32) -> Expr {
    Expr::Int(Integer::new(true, vec![n]))
}

fn list(t: Expr) -> Expr {
    call("list", vec![t])
}

fn vector(t: Expr, n: Expr) -> Expr {
    call("vector", vec![t, n])
}

fn tuple(ts: Vec<Expr>) -> Expr {
    call("tuple", vec![Expr::Array(ts)])
}

fn sig(args: Vec<(&str, Expr)>, ret: Expr) -> CheckedFunc {
    CheckedFunc { args: args.into_iter().map(|(n, t)| (n.to_string(), t)).collect(), ret }
}

fn sigs(list: Vec<(&str, CheckedFunc)>) -> NameMap<CheckedFunc> {
    let mut m = NameMap::new();
    for (name, cf) in list {
        m.insert(name.to_string(), cf);
    }
    m
}

fn env(list: Vec<(&str, Expr)>) -> NameMap<Expr> {
    let mut m = NameMap::new();
    for (name, t) in list {
        m.insert(name.to_string(), t);
    }
    m
}

fn decl(name: &str, args: Vec<(&str, Expr)>, ret: Expr, body: Expr) -> (String, Decl) {
    let args = args.into_iter().map(|(n, t)| (n.to_string(), t)).collect();
    (name.to_string(), Decl { args, ret, body })
}

#[test]
fn every_type_coerces_to_itself() {
    let types = vec![
        var("uint"),
        var("int"),
        var("anything"),
        list(var("string")),
        vector(var("uint"), call("n", vec![var("x")])),
        tuple(vec![var("uint"), list(var("int"))]),
        num(3),
        Expr::Array(vec![var("a")]),
    ];
    for t in types.iter() {
        assert!(can_coerce_type(t, t), "{:?}", t);
    }
}

#[test]
fn uint_coerces_to_int_and_not_back() {
    assert!(can_coerce_type(&var("uint"), &var("int")));
    assert!(!can_coerce_type(&var("int"), &var("uint")));
    assert!(!can_coerce_type(&var("string"), &var("int")));
}

#[test]
fn false_coerces_to_everything() {
    assert!(can_coerce_type(&var("false"), &var("int")));
    assert!(can_coerce_type(&var("false"), &list(var("string"))));
    assert!(can_coerce_type(&var("false"), &var("unknown")));
    assert!(!can_coerce_type(&var("true"), &var("int")));
}

#[test]
fn vector_of_written_length_coerces_to_tuple() {
    let sub = vector(var("uint"), num(2));
    let sup = tuple(vec![var("uint"), var("uint")]);
    assert!(can_coerce_type(&sub, &sup));
    assert!(can_coerce_type(&sub, &tuple(vec![var("int"), var("uint")])));
    assert!(!can_coerce_type(&sub, &tuple(vec![var("uint"), var("string")])));
}

#[test]
fn vector_length_that_is_not_written_as_the_arity_is_rejected() {
    let sup = tuple(vec![var("uint"), var("uint")]);
    assert!(!can_coerce_type(&vector(var("uint"), call("plus", vec![num(1), num(1)])), &sup));
    assert!(!can_coerce_type(&vector(var("uint"), var("two")), &sup));
    assert!(!can_coerce_type(&vector(var("uint"), num(3)), &sup));
    assert!(!can_coerce_type(&vector(var("uint"), neg(2)), &sup));
}

#[test]
fn lists_accept_lists_vectors_and_tuples() {
    let sup = list(var("int"));
    assert!(can_coerce_type(&list(var("uint")), &sup));
    assert!(can_coerce_type(&vector(var("uint"), var("n")), &sup));
    assert!(can_coerce_type(&tuple(vec![var("uint"), var("int"), var("false")]), &sup));
    assert!(can_coerce_type(&tuple(vec![]), &sup));
    assert!(!can_coerce_type(&tuple(vec![var("uint"), var("string")]), &sup));
    assert!(!can_coerce_type(&list(var("string")), &sup));
    assert!(!can_coerce_type(&call("tuple", vec![var("ts")]), &sup));
    assert!(!can_coerce_type(&var("uint"), &sup));
}

#[test]
fn vectors_accept_vectors_of_the_same_written_length_and_tuples_of_that_arity() {
    let sup = vector(var("int"), var("n"));
    assert!(can_coerce_type(&vector(var("uint"), var("n")), &sup));
    assert!(!can_coerce_type(&vector(var("uint"), var("m")), &sup));
    assert!(!can_coerce_type(&vector(var("string"), var("n")), &sup));
    let three = vector(var("int"), num(3));
    assert!(can_coerce_type(&tuple(vec![var("uint"), var("int"), var("uint")]), &three));
    assert!(!can_coerce_type(&tuple(vec![var("uint"), var("int")]), &three));
    assert!(!can_coerce_type(&tuple(vec![var("uint"), var("int"), var("string")]), &three));
    assert!(!can_coerce_type(&list(var("uint")), &three));
}

#[test]
fn tuples_accept_tuples_pointwise() {
    let sup = tuple(vec![var("int"), list(var("int"))]);
    assert!(can_coerce_type(&tuple(vec![var("uint"), list(var("uint"))]), &sup));
    assert!(!can_coerce_type(&tuple(vec![var("uint")]), &sup));
    assert!(!can_coerce_type(&tuple(vec![list(var("uint")), var("uint")]), &sup));
    assert!(!can_coerce_type(&list(var("uint")), &sup));
    assert!(!can_coerce_type(&tuple(vec![var("uint")]), &call("tuple", vec![var("ts")])));
}

#[test]
fn equality_is_proved_only_of_identical_expressions() {
    assert!(can_prove_equal(&call("f", vec![num(1)]), &call("f", vec![num(1)])));
    assert!(!can_prove_equal(&call("f", vec![num(1)]), &call("f", vec![num(2)])));
    assert!(can_prove_equal_usize(&num(2), 2));
    assert!(!can_prove_equal_usize(&num(2), 3));
    assert!(!can_prove_equal_usize(&neg(2), 2));
    assert!(!can_prove_equal_usize(&var("two"), 2));
    assert!(can_prove_equal_usize(&Expr::Int(Integer::new(false, vec![])), 0));
}

#[test]
fn large_lengths_are_compared_as_numbers() {
    let big = Expr::Int(Integer::new(false, vec![0, 1]));
    if usize::BITS >= 64 {
        assert!(can_prove_equal_usize(&big, 4294967296usize));
    }
    assert!(!can_prove_equal_usize(&big, 0));
    assert!(!can_prove_equal_usize(&big, 1));
}

#[test]
fn integer_literals_are_classified_by_sign() {
    let nothing = sigs(vec![]);
    let empty = env(vec![]);
    assert!(check_expr(&num(5), &nothing, &empty).unwrap().equals(&var("uint")));
    assert!(check_expr(&num(0), &nothing, &empty).unwrap().equals(&var("uint")));
    assert!(check_expr(&neg(5), &nothing, &empty).unwrap().equals(&var("int")));
}

#[test]
fn variables_take_their_type_from_the_environment() {
    let nothing = sigs(vec![]);
    let scope = env(vec![("x", list(var("uint")))]);
    assert!(check_expr(&var("x"), &nothing, &scope).unwrap().equals(&list(var("uint"))));
    assert!(matches!(
        check_expr(&var("y"), &nothing, &scope),
        Err(TypeError::NoSuchVar(name)) if name == "y"
    ));
}

#[test]
fn array_literal_infers_a_tuple_of_the_element_types() {
    let nothing = sigs(vec![]);
    let empty = env(vec![]);
    let t = check_expr(&Expr::Array(vec![num(1), num(2), num(3)]), &nothing, &empty).unwrap();
    assert!(t.equals(&tuple(vec![var("uint"), var("uint"), var("uint")])));
    let mixed = check_expr(&Expr::Array(vec![num(1), neg(2)]), &nothing, &empty).unwrap();
    assert!(mixed.equals(&tuple(vec![var("uint"), var("int")])));
    let none = check_expr(&Expr::Array(vec![]), &nothing, &empty).unwrap();
    assert!(none.equals(&tuple(vec![])));
}

#[test]
fn call_of_unknown_function() {
    assert!(matches!(
        check_expr(&call("f", vec![num(1)]), &sigs(vec![]), &env(vec![])),
        Err(TypeError::NoSuchFunc(name)) if name == "f"
    ));
}

#[test]
fn call_with_wrong_number_of_args() {
    let known = sigs(vec![("pair", sig(vec![("a", num(0)), ("b", num(0))], num(0)))]);
    assert!(matches!(
        check_expr(&call("pair", vec![num(1)]), &known, &env(vec![])),
        Err(TypeError::WrongNumberOfArgs(name, 2, 1)) if name == "pair"
    ));
    assert!(matches!(
        check_expr(&call("pair", vec![num(1), num(2), num(3)]), &known, &env(vec![])),
        Err(TypeError::WrongNumberOfArgs(name, 2, 3)) if name == "pair"
    ));
}

#[test]
fn arity_is_checked_before_the_arguments() {
    let known = sigs(vec![("pair", sig(vec![("a", num(0)), ("b", num(0))], num(0)))]);
    assert!(matches!(
        check_expr(&call("pair", vec![var("unbound")]), &known, &env(vec![])),
        Err(TypeError::WrongNumberOfArgs(name, 2, 1)) if name == "pair"
    ));
}

#[test]
fn call_substitutes_actual_expressions_into_later_types() {
    // make(n: 0)(v: vector(k(), n)) : vector(k(), n)
    let known = sigs(vec![
        ("uint", sig(vec![], num(0))),
        (
            "make",
            sig(
                vec![("n", num(0)), ("v", vector(call("k", vec![]), var("n")))],
                vector(call("k", vec![]), var("n")),
            ),
        ),
    ]);
    let scope = env(vec![("xs", vector(call("k", vec![]), num(3))), ("len", num(0))]);
    // The first actual is the literal 3, whose type `uint` is not the formal
    // type `0`: rejected at place 0.
    match check_expr(&call("make", vec![num(3), var("xs")]), &known, &scope) {
        Err(TypeError::CannotCoerceArgumentType(f, 0, actual, inferred, formal)) => {
            assert_eq!(f, "make");
            assert!(actual.equals(&num(3)));
            assert!(inferred.equals(&var("uint")));
            assert!(formal.equals(&num(0)));
        }
        other => panic!("unexpected {:?}", other),
    }
    // With a first actual of type `0`, the second formal's type becomes
    // vector(k(), <first actual>), and the return type too.
    let t = check_expr(&call("make", vec![var("len"), var("xs")]), &known, &scope);
    match t {
        Err(TypeError::CannotCoerceArgumentType(f, 1, actual, inferred, formal)) => {
            assert_eq!(f, "make");
            assert!(actual.equals(&var("xs")));
            assert!(inferred.equals(&vector(call("k", vec![]), num(3))));
            assert!(formal.equals(&vector(call("k", vec![]), var("len"))));
        }
        other => panic!("unexpected {:?}", other),
    }
    let scope = env(vec![("xs", vector(call("k", vec![]), var("len"))), ("len", num(0))]);
    let t = check_expr(&call("make", vec![var("len"), var("xs")]), &known, &scope).unwrap();
    assert!(t.equals(&vector(call("k", vec![]), var("len"))));
}

#[test]
fn names_that_are_no_formals_stay_as_written() {
    let known = sigs(vec![("f", sig(vec![("x", var("uint"))], var("uint")))]);
    let t = check_expr(&call("f", vec![num(1)]), &known, &env(vec![])).unwrap();
    assert!(t.equals(&var("uint")));
    let to_int = sigs(vec![("f", sig(vec![("x", var("int"))], list(var("int"))))]);
    let t = check_expr(&call("f", vec![num(1)]), &to_int, &env(vec![])).unwrap();
    assert!(t.equals(&list(var("int"))));
}

#[test]
fn only_the_formal_is_substituted_in_the_return_type() {
    let known = sigs(vec![("rep", sig(vec![("n", var("uint"))], vector(var("uint"), var("n"))))]);
    let t = check_expr(&call("rep", vec![num(3)]), &known, &env(vec![])).unwrap();
    assert!(t.equals(&vector(var("uint"), num(3))), "{:?}", t);
    match check_expr(&call("rep", vec![neg(3)]), &known, &env(vec![])) {
        Err(TypeError::CannotCoerceArgumentType(f, 0, actual, inferred, formal)) => {
            assert_eq!(f, "rep");
            assert!(actual.equals(&neg(3)));
            assert!(inferred.equals(&var("int")));
            assert!(formal.equals(&var("uint")));
        }
        other => panic!("unexpected {:?}", other),
    }
}

#[test]
fn earlier_actuals_are_visible_in_later_formal_types() {
    let known = sigs(vec![(
        "make",
        sig(
            vec![
                ("t", var("type")),
                ("n", var("uint")),
                ("v", vector(var("t"), var("n"))),
            ],
            vector(var("t"), var("n")),
        ),
    )]);
    let scope = env(vec![
        ("k", var("type")),
        ("xs", vector(var("k"), num(3))),
        ("ys", vector(var("k"), num(4))),
    ]);
    let t = check_expr(&call("make", vec![var("k"), num(3), var("xs")]), &known, &scope).unwrap();
    assert!(t.equals(&vector(var("k"), num(3))), "{:?}", t);
    match check_expr(&call("make", vec![var("k"), num(3), var("ys")]), &known, &scope) {
        Err(TypeError::CannotCoerceArgumentType(f, 2, actual, inferred, formal)) => {
            assert_eq!(f, "make");
            assert!(actual.equals(&var("ys")));
            assert!(inferred.equals(&vector(var("k"), num(4))));
            assert!(formal.equals(&vector(var("k"), num(3))));
        }
        other => panic!("unexpected {:?}", other),
    }
}

#[test]
fn repeated_formal_name_in_a_signature() {
    let known = sigs(vec![("f", sig(vec![("x", num(0)), ("x", num(0))], num(0)))]);
    let scope = env(vec![("a", num(0))]);
    assert!(matches!(
        check_expr(&call("f", vec![var("a"), var("a")]), &known, &scope),
        Err(TypeError::DuplicateArgName(name)) if name == "x"
    ));
}

#[test]
fn errors_in_arguments_come_from_the_left() {
    let known = sigs(vec![("f", sig(vec![("x", num(0)), ("y", num(0))], num(0)))]);
    assert!(matches!(
        check_expr(&call("f", vec![var("first"), var("second")]), &known, &env(vec![])),
        Err(TypeError::NoSuchVar(name)) if name == "first"
    ));
}

#[test]
fn each_argument_is_checked_before_the_next_is_looked_at() {
    let known = sigs(vec![("f", sig(vec![("x", num(0)), ("y", num(0))], num(0)))]);
    assert!(matches!(
        check_expr(&call("f", vec![num(1), var("unbound")]), &known, &env(vec![])),
        Err(TypeError::CannotCoerceArgumentType(name, 0, ..)) if name == "f"
    ));
}

#[test]
fn map_vars_replaces_bound_variables() {
    let mapping = env(vec![("n", num(3)), ("t", var("uint"))]);
    let e = vector(var("t"), call("g", vec![var("n"), num(1)]));
    let r = e.map_vars(&mapping).unwrap();
    assert!(r.equals(&vector(var("uint"), call("g", vec![num(3), num(1)]))));
    let kept = Expr::Array(vec![var("n"), var("free"), call("t", vec![var("t")])])
        .map_vars(&mapping)
        .unwrap();
    assert!(kept.equals(&Expr::Array(vec![
        num(3),
        var("free"),
        call("t", vec![var("uint")])
    ])));
    let nothing = env(vec![]);
    assert!(e.map_vars(&nothing).unwrap().equals(&e));
}

#[test]
fn argument_type_must_be_a_type() {
    let scope = env(vec![("t", var("type")), ("n", var("uint")), ("never", var("false"))]);
    let nothing = sigs(vec![]);
    let name = "x".to_string();
    assert!(check_arg_is_of_type_type(&name, &var("t"), &nothing, &scope).is_ok());
    assert!(check_arg_is_of_type_type(&name, &var("never"), &nothing, &scope).is_ok());
    match check_arg_is_of_type_type(&name, &var("n"), &nothing, &scope) {
        Err(TypeError::ExpectedArgToBeOfTypeType(arg, expr, inferred)) => {
            assert_eq!(arg, "x");
            assert!(expr.equals(&var("n")));
            assert!(inferred.equals(&var("uint")));
        }
        other => panic!("unexpected {:?}", other),
    }
    assert!(matches!(
        check_arg_is_of_type_type(&name, &num(3), &nothing, &scope),
        Err(TypeError::ExpectedArgToBeOfTypeType(..))
    ));
}

#[test]
fn body_must_coerce_to_the_return_type() {
    let nothing = sigs(vec![]);
    let main = Func {
        args: vec![],
        ret: var("uint"),
        body: Expr::Array(vec![num(1), num(2), num(3)]),
        prelude: false,
    };
    match check_func(&main, &nothing) {
        Err(TypeError::CannotCoerceReturnType(inferred, declared)) => {
            assert!(inferred.equals(&tuple(vec![var("uint"), var("uint"), var("uint")])));
            assert!(declared.equals(&var("uint")));
        }
        other => panic!("unexpected {:?}", other),
    }
    let ok = Func { args: vec![], ret: var("int"), body: num(1), prelude: false };
    let cf = check_func(&ok, &nothing).unwrap();
    assert!(cf.args.is_empty());
    assert!(cf.ret.equals(&var("int")));
    let down = Func { args: vec![], ret: var("uint"), body: neg(1), prelude: false };
    assert!(matches!(check_func(&down, &nothing), Err(TypeError::CannotCoerceReturnType(..))));
}

#[test]
fn array_body_against_uint_return_fails_type_check() {
    let prelude = Script { decls: vec![decl("uint", vec![], var("uint"), num(0))] };
    let user = Script {
        decls: vec![decl("main", vec![], var("uint"), Expr::Array(vec![num(1), num(2), num(3)]))],
    };
    let program = combine(&prelude, &user).unwrap();
    match type_check(&program) {
        Err(TypeError::CannotCoerceReturnType(inferred, declared)) => {
            assert!(inferred.equals(&tuple(vec![var("uint"), var("uint"), var("uint")])));
            assert!(declared.equals(&var("uint")));
        }
        other => panic!("unexpected {:?}", other),
    }
}

#[test]
fn argument_type_is_checked_before_the_body() {
    let prelude = Script {
        decls: vec![
            decl("uint", vec![], var("uint"), num(0)),
            decl("string", vec![], var("uint"), num(0)),
            decl("list", vec![], var("uint"), num(0)),
        ],
    };
    let user = Script {
        decls: vec![decl(
            "main",
            vec![("args", list(var("string")))],
            var("uint"),
            Expr::Array(vec![num(1), num(2), num(3)]),
        )],
    };
    let program = combine(&prelude, &user).unwrap();
    assert!(matches!(
        type_check(&program),
        Err(TypeError::WrongNumberOfArgs(name, 0, 1)) if name == "list"
    ));
}

#[test]
fn prelude_declarations_are_checked_first() {
    let prelude = Script {
        decls: vec![
            decl("type", vec![], var("type"), var("type")),
            decl("uint", vec![], var("type"), var("uint")),
            decl("string", vec![], var("type"), var("string")),
            decl("list", vec![("t", var("type"))], var("type"), var("list")),
        ],
    };
    let user = Script {
        decls: vec![decl(
            "main",
            vec![("args", list(var("string")))],
            var("uint"),
            Expr::Array(vec![num(1), num(2), num(3)]),
        )],
    };
    let program = combine(&prelude, &user).unwrap();
    assert!(matches!(
        type_check(&program),
        Err(TypeError::NoSuchVar(name)) if name == "type"
    ));
}

#[test]
fn first_argument_type_is_checked_in_an_empty_scope() {
    let nothing = sigs(vec![]);
    let f = Func {
        args: vec![("t".to_string(), var("t0")), ("t".to_string(), var("t0"))],
        ret: num(0),
        body: num(0),
        prelude: false,
    };
    assert!(matches!(check_func(&f, &nothing), Err(TypeError::NoSuchVar(name)) if name == "t0"));
}

#[test]
fn type_check_passes_a_program_of_constants() {
    let prelude = Script {
        decls: vec![
            decl("uint", vec![], var("uint"), num(0)),
            decl("int", vec![], var("int"), neg(1)),
            decl("tuple", vec![], var("uint"), num(0)),
        ],
    };
    let user = Script {
        decls: vec![
            decl("one", vec![], var("uint"), num(1)),
            decl("minus", vec![], var("int"), neg(1)),
            decl("small", vec![], var("int"), num(1)),
            decl("triple", vec![], tuple(vec![var("int"), var("uint")]), Expr::Array(vec![num(1), num(2)])),
        ],
    };
    let program = combine(&prelude, &user).unwrap();
    assert!(type_check(&program).is_ok());
}

#[test]
fn call_of_a_constant_has_its_return_type() {
    let prelude = Script {
        decls: vec![
            decl("uint", vec![], var("uint"), num(0)),
            decl("int", vec![], var("int"), neg(1)),
        ],
    };
    let user = Script {
        decls: vec![
            decl("one", vec![], var("uint"), num(1)),
            decl("also", vec![], var("uint"), call("one", vec![])),
            decl("wider", vec![], var("int"), call("also", vec![])),
        ],
    };
    let program = combine(&prelude, &user).unwrap();
    assert!(type_check(&program).is_ok());
    let narrower = Script {
        decls: vec![
            decl("minus", vec![], var("int"), neg(1)),
            decl("bad", vec![], var("uint"), call("minus", vec![])),
        ],
    };
    let program = combine(&prelude, &narrower).unwrap();
    match type_check(&program) {
        Err(TypeError::CannotCoerceReturnType(inferred, declared)) => {
            assert!(inferred.equals(&var("int")));
            assert!(declared.equals(&var("uint")));
        }
        other => panic!("unexpected {:?}", other),
    }
}

#[test]
fn type_check_stops_at_the_first_declaration_that_fails() {
    let prelude = Script { decls: vec![decl("uint", vec![], var("uint"), num(0))] };
    let user = Script {
        decls: vec![
            decl("bad", vec![], var("uint"), neg(1)),
            decl("worse", vec![], var("uint"), call("nothing", vec![])),
        ],
    };
    let program = combine(&prelude, &user);
    assert!(program.is_err());
    let user = Script {
        decls: vec![
            decl("bad", vec![], var("uint"), neg(1)),
            decl("worse", vec![], var("uint"), call("bad", vec![num(1)])),
        ],
    };
    let program = combine(&prelude, &user).unwrap();
    match type_check(&program) {
        Err(TypeError::CannotCoerceReturnType(inferred, declared)) => {
            assert!(inferred.equals(&var("int")));
            assert!(declared.equals(&var("uint")));
        }
        other => panic!("unexpected {:?}", other),
    }
}

#[test]
fn shape_tests_on_type_expressions() {
    assert!(list(var("t")).is_list_type().unwrap().equals(&var("t")));
    assert!(call("list", vec![]).is_list_type().is_none());
    assert!(vector(var("t"), num(2)).is_list_type().is_none());
    let v = vector(var("t"), num(2));
    let (t, n) = v.is_vector_type().unwrap();
    assert!(t.equals(&var("t")) && n.equals(&num(2)));
    assert!(call("list", vec![var("t"), num(2)]).is_vector_type().is_none());
    assert!(call("tuple", vec![var("ts")]).is_tuple_type().unwrap().equals(&var("ts")));
    assert!(var("tuple").is_tuple_type().is_none());
    assert_eq!(Expr::Array(vec![num(1), num(2)]).is_explicit_array().unwrap().len(), 2);
    assert!(var("a").is_explicit_array().is_none());
    assert!(num(7).is_literal_integer().unwrap().equals(&Integer::new(false, vec![7])));
    assert!(var("seven").is_literal_integer().is_none());
    assert!(var("uint").is_label("uint"));
    assert!(!var("uint").is_label("int"));
    assert!(!call("uint", vec![]).is_label("uint"));
}
