use justdep::ast::{Decl, Expr, Script};
use justdep::combine::{combine, Program};
use justdep::eval::{call_builtin, EvalError, Type, Val};
use justdep::integer::Integer;

fn var(name: &str) -> Expr {
    Expr::Var(name.to_string())
}

fn call(name: &str, args: Vec<Expr>) -> Expr {
    Expr::Call(name.to_string(), args)
}

fn num(n: u32) -> Expr {
    Expr::Int(Integer::new(false, vec![n]))
}

fn decl(name: &str, args: Vec<(&str, Expr)>, ret: Expr, body: Expr) -> (String, Decl) {
    let args = args.into_iter().map(|(n, t)| (n.to_string(), t)).collect();
    (name.to_string(), Decl { args, ret, body })
}

fn builtin_prelude() -> Script {
    Script {
        decls: vec![
            decl("type", vec![], var("type"), var("type")),
            decl("true", vec![], var("type"), var("true")),
            decl("false", vec![], var("type"), var("false")),
            decl("bool", vec![], var("type"), var("bool")),
            decl("int", vec![], var("type"), var("int")),
            decl("uint", vec![], var("type"), var("uint")),
            decl("string", vec![], var("type"), var("string")),
            decl("list", vec![("t", var("type"))], var("type"), var("list")),
            decl("vector", vec![("t", var("type")), ("n", var("uint"))], var("type"), var("vector")),
            decl("tuple", vec![("ts", call("list", vec![var("type")]))], var("type"), var("tuple")),
        ],
    }
}

fn main_decl(body: Expr) -> (String, Decl) {
    decl("main", vec![("args", call("list", vec![var("string")]))], var("uint"), body)
}

fn program(user: Vec<(String, Decl)>) -> Program {
    combine(&builtin_prelude(), &Script { decls: user }).unwrap()
}

fn is_int(v: &Val, n: u32) -> bool {
    match v {
        Val::Int(i) => i.equals(&Integer::new(false, vec![n])),
        _ => false,
    }
}

fn int_val(n: u32) -> Val {
    Val::Int(Integer::new(false, vec![n]))
}

fn names(list: &[&str]) -> Vec<String> {
    list.iter().map(|s| s.to_string()).collect()
}

#[test]
fn constant_reached_through_main_yields_its_value() {
    let p = program(vec![
        decl("five", vec![], var("uint"), num(5)),
        main_decl(var("five")),
    ]);
    let v = p.eval_main(&[]).unwrap();
    assert!(is_int(&v, 5), "{:?}", v);
}

#[test]
fn identity_declared_by_the_prelude_has_no_builtin() {
    let mut prelude = builtin_prelude();
    prelude.decls.push(decl(
        "id",
        vec![("t", var("type")), ("x", var("t"))],
        var("t"),
        var("x"),
    ));
    let user = Script {
        decls: vec![
            decl("five", vec![], var("uint"), call("id", vec![var("uint"), num(5)])),
            main_decl(var("five")),
        ],
    };
    let p = combine(&prelude, &user).unwrap();
    assert!(matches!(
        p.eval_main(&[]),
        Err(EvalError::NoSuchPreludeFunction(name)) if name == "id"
    ));
}

#[test]
fn main_receives_the_strings_as_one_array() {
    let p = program(vec![
        decl("args", vec![], var("uint"), num(0)),
        main_decl(var("args")),
    ]);
    let given = vec!["a".to_string(), "bc".to_string()];
    match p.eval_main(&given).unwrap() {
        Val::Array(items) => {
            assert_eq!(items.len(), 2);
            assert!(matches!(&items[0], Val::String(s) if s == "a"));
            assert!(matches!(&items[1], Val::String(s) if s == "bc"));
        }
        other => panic!("unexpected {:?}", other),
    }
}

#[test]
fn local_binding_shadows_a_global_of_the_same_name() {
    let p = program(vec![
        decl("x", vec![], var("uint"), num(1)),
        decl("same", vec![("x", var("uint"))], var("uint"), var("x")),
        main_decl(Expr::Array(vec![call("same", vec![num(9)]), var("x")])),
    ]);
    match p.eval_main(&[]).unwrap() {
        Val::Array(items) => {
            assert!(is_int(&items[0], 9));
            assert!(is_int(&items[1], 1));
        }
        other => panic!("unexpected {:?}", other),
    }
}

#[test]
fn arrays_evaluate_their_elements_in_order() {
    let p = program(vec![
        decl("one", vec![], var("uint"), num(1)),
        main_decl(Expr::Array(vec![num(3), var("one"), Expr::Array(vec![])])),
    ]);
    match p.eval_main(&[]).unwrap() {
        Val::Array(items) => {
            assert_eq!(items.len(), 3);
            assert!(is_int(&items[0], 3));
            assert!(is_int(&items[1], 1));
            assert!(matches!(&items[2], Val::Array(inner) if inner.is_empty()));
        }
        other => panic!("unexpected {:?}", other),
    }
}

#[test]
fn nullary_declaration_is_computed_once() {
    let p = program(vec![
        decl("five", vec![], var("uint"), num(5)),
        decl("a", vec![], var("uint"), var("five")),
        decl("b", vec![], var("uint"), var("five")),
        main_decl(Expr::Array(vec![var("a"), var("b"), var("five")])),
    ]);
    let (result, memo) = p.run_main(&[]);
    match result.unwrap() {
        Val::Array(items) => {
            assert_eq!(items.len(), 3);
            assert!(items.iter().all(|v| is_int(v, 5)));
        }
        other => panic!("unexpected {:?}", other),
    }
    assert_eq!(memo.forced, names(&["a", "five", "b"]));
    assert_eq!(memo.forced.iter().filter(|n| *n == "five").count(), 1);
    assert!(is_int(memo.values.get(&"five".to_string()).unwrap(), 5));
    assert!(is_int(memo.values.get(&"a".to_string()).unwrap(), 5));
    assert!(is_int(memo.values.get(&"b".to_string()).unwrap(), 5));
    assert_eq!(memo.values.len(), 3);
}

#[test]
fn values_in_the_cache_are_kept_while_others_are_computed() {
    let p = program(vec![
        decl("one", vec![], var("uint"), num(1)),
        decl("two", vec![], var("uint"), num(2)),
        decl("both", vec![], var("uint"), Expr::Array(vec![var("one"), var("two"), var("one")])),
        main_decl(Expr::Array(vec![var("one"), var("both"), var("two"), var("one")])),
    ]);
    let (result, memo) = p.run_main(&[]);
    match result.unwrap() {
        Val::Array(items) => {
            assert!(is_int(&items[0], 1));
            assert!(is_int(&items[2], 2));
            assert!(is_int(&items[3], 1));
            match &items[1] {
                Val::Array(inner) => {
                    assert!(is_int(&inner[0], 1) && is_int(&inner[1], 2) && is_int(&inner[2], 1));
                }
                other => panic!("unexpected {:?}", other),
            }
        }
        other => panic!("unexpected {:?}", other),
    }
    assert_eq!(memo.forced, names(&["one", "both", "two"]));
    assert!(is_int(memo.values.get(&"one".to_string()).unwrap(), 1));
    assert!(is_int(memo.values.get(&"two".to_string()).unwrap(), 2));
}

#[test]
fn prelude_types_are_computed_once_too() {
    let p = program(vec![main_decl(Expr::Array(vec![var("uint"), var("uint"), var("int")]))]);
    let (result, memo) = p.run_main(&[]);
    match result.unwrap() {
        Val::Array(items) => {
            assert!(matches!(items[0], Val::Type(Type::Uint)));
            assert!(matches!(items[1], Val::Type(Type::Uint)));
            assert!(matches!(items[2], Val::Type(Type::Int)));
        }
        other => panic!("unexpected {:?}", other),
    }
    assert_eq!(memo.forced, names(&["uint", "int"]));
}

#[test]
fn call_without_arguments_is_not_cached() {
    let p = program(vec![
        decl("five", vec![], var("uint"), num(5)),
        main_decl(Expr::Array(vec![call("five", vec![]), call("five", vec![])])),
    ]);
    let (result, memo) = p.run_main(&[]);
    assert!(result.is_ok());
    assert!(memo.forced.is_empty());
    assert_eq!(memo.values.len(), 0);
}

#[test]
fn missing_main_is_no_such_func() {
    let p = program(vec![decl("five", vec![], var("uint"), num(5))]);
    assert!(matches!(p.eval_main(&[]), Err(EvalError::NoSuchFunc(name)) if name == "main"));
}

#[test]
fn main_without_arguments_gets_one_too_many() {
    let p = program(vec![decl("main", vec![], var("uint"), num(5))]);
    assert!(matches!(
        p.eval_main(&[]),
        Err(EvalError::WrongNumberOfArgs(name, 0, 1)) if name == "main"
    ));
}

#[test]
fn call_with_wrong_number_of_arguments() {
    let p = program(vec![
        decl("y", vec![], var("uint"), num(2)),
        decl("x", vec![], var("uint"), num(1)),
        decl("two", vec![("x", var("uint")), ("y", var("uint"))], var("uint"), var("y")),
        main_decl(call("two", vec![num(1)])),
    ]);
    assert!(matches!(
        p.eval_main(&[]),
        Err(EvalError::WrongNumberOfArgs(name, 2, 1)) if name == "two"
    ));
}

#[test]
fn later_formal_of_the_same_name_wins() {
    let p = program(vec![
        decl("x", vec![], var("uint"), num(0)),
        decl("twice", vec![("x", var("uint")), ("x", var("uint"))], var("uint"), var("x")),
        main_decl(call("twice", vec![num(1), num(2)])),
    ]);
    assert!(is_int(&p.eval_main(&[]).unwrap(), 2));
}

#[test]
fn builtins_construct_types() {
    let p = program(vec![main_decl(Expr::Array(vec![
        call("list", vec![var("string")]),
        call("vector", vec![var("bool"), num(3)]),
        call("tuple", vec![Expr::Array(vec![var("true"), var("false"), var("type")])]),
    ]))]);
    match p.eval_main(&[]).unwrap() {
        Val::Array(items) => {
            match &items[0] {
                Val::Type(Type::List(t)) => assert!(matches!(**t, Type::String)),
                other => panic!("unexpected {:?}", other),
            }
            match &items[1] {
                Val::Type(Type::Vector(t, 3)) => assert!(matches!(**t, Type::Bool)),
                other => panic!("unexpected {:?}", other),
            }
            match &items[2] {
                Val::Type(Type::Tuple(ts)) => {
                    assert_eq!(ts.len(), 3);
                    assert!(matches!(ts[0], Type::True));
                    assert!(matches!(ts[1], Type::False));
                    assert!(matches!(ts[2], Type::Type));
                }
                other => panic!("unexpected {:?}", other),
            }
        }
        other => panic!("unexpected {:?}", other),
    }
}

#[test]
fn builtin_list_needs_a_type() {
    let p = program(vec![main_decl(call("list", vec![num(3)]))]);
    assert!(matches!(p.eval_main(&[]), Err(EvalError::NotType(v)) if is_int(&v, 3)));
}

#[test]
fn builtin_vector_needs_an_integer_length() {
    let p = program(vec![main_decl(call("vector", vec![var("uint"), var("uint")]))]);
    assert!(matches!(
        p.eval_main(&[]),
        Err(EvalError::NotInteger(Val::Type(Type::Uint)))
    ));
}

#[test]
fn builtin_vector_checks_the_type_before_the_length() {
    let p = program(vec![main_decl(call("vector", vec![num(1), var("uint")]))]);
    assert!(matches!(p.eval_main(&[]), Err(EvalError::NotType(v)) if is_int(&v, 1)));
}

#[test]
fn builtin_tuple_needs_an_array_of_types() {
    let p = program(vec![main_decl(call("tuple", vec![var("uint")]))]);
    assert!(matches!(p.eval_main(&[]), Err(EvalError::NotArray(Val::Type(Type::Uint)))));
    let p = program(vec![main_decl(call(
        "tuple",
        vec![Expr::Array(vec![var("uint"), num(4), num(5)])],
    ))]);
    assert!(matches!(p.eval_main(&[]), Err(EvalError::NotType(v)) if is_int(&v, 4)));
}

#[test]
fn length_that_does_not_fit_is_an_overflow() {
    let huge = Val::Int(Integer::new(false, vec![0, 0, 0, 0, 1]));
    let r = call_builtin(&"vector".to_string(), &vec![Val::Type(Type::Int), huge]);
    assert!(matches!(r, Err(EvalError::Overflow)));
    let negative = Val::Int(Integer::new(true, vec![1]));
    let r = call_builtin(&"vector".to_string(), &vec![Val::Type(Type::Int), negative]);
    assert!(matches!(r, Err(EvalError::Overflow)));
}

#[test]
fn length_is_converted_exactly() {
    let r = call_builtin(
        &"vector".to_string(),
        &vec![Val::Type(Type::Int), Val::Int(Integer::new(false, vec![70000]))],
    );
    assert!(matches!(r, Ok(Val::Type(Type::Vector(_, 70000)))));
    let r = call_builtin(&"vector".to_string(), &vec![Val::Type(Type::Int), int_val(0)]);
    assert!(matches!(r, Ok(Val::Type(Type::Vector(_, 0)))));
    if usize::BITS >= 64 {
        let r = call_builtin(
            &"vector".to_string(),
            &vec![Val::Type(Type::Int), Val::Int(Integer::new(false, vec![1, 1]))],
        );
        assert!(matches!(r, Ok(Val::Type(Type::Vector(_, 4294967297)))));
    }
}

#[test]
fn simple_builtins_ignore_their_arguments() {
    let r = call_builtin(&"bool".to_string(), &vec![int_val(1)]);
    assert!(matches!(r, Ok(Val::Type(Type::Bool))));
    let r = call_builtin(&"type".to_string(), &vec![]);
    assert!(matches!(r, Ok(Val::Type(Type::Type))));
    let r = call_builtin(&"string".to_string(), &vec![]);
    assert!(matches!(r, Ok(Val::Type(Type::String))));
}

#[test]
fn builtin_given_too_few_arguments() {
    let r = call_builtin(&"list".to_string(), &vec![]);
    assert!(matches!(r, Err(EvalError::WrongNumberOfArgs(name, 1, 0)) if name == "list"));
    let r = call_builtin(&"vector".to_string(), &vec![Val::Type(Type::Int)]);
    assert!(matches!(r, Err(EvalError::WrongNumberOfArgs(name, 2, 1)) if name == "vector"));
    let r = call_builtin(&"tuple".to_string(), &vec![]);
    assert!(matches!(r, Err(EvalError::WrongNumberOfArgs(name, 1, 0)) if name == "tuple"));
}

#[test]
fn unknown_builtin() {
    let r = call_builtin(&"map".to_string(), &vec![]);
    assert!(matches!(r, Err(EvalError::NoSuchPreludeFunction(name)) if name == "map"));
}

#[test]
fn unwrap_helpers_check_the_shape() {
    assert_eq!(int_val(12).unwrap_usize().unwrap(), 12);
    assert!(matches!(Val::String("x".to_string()).unwrap_usize(), Err(EvalError::NotInteger(_))));
    assert!(matches!(Val::Type(Type::Int).unwrap_type(), Ok(Type::Int)));
    assert!(matches!(int_val(1).unwrap_type(), Err(EvalError::NotType(_))));
    assert_eq!(Val::Array(vec![int_val(1), int_val(2)]).unwrap_array().unwrap().len(), 2);
    assert!(matches!(int_val(1).unwrap_array(), Err(EvalError::NotArray(_))));
    let types = Val::Array(vec![Val::Type(Type::Int), Val::Type(Type::Uint)]);
    assert_eq!(types.unwrap_array_of_types().unwrap().len(), 2);
    let mixed = Val::Array(vec![Val::Type(Type::Int), int_val(7), Val::String("s".to_string())]);
    assert!(matches!(mixed.unwrap_array_of_types(), Err(EvalError::NotType(v)) if is_int(&v, 7)));
}

#[test]
fn errors_end_the_evaluation_at_the_first() {
    let p = program(vec![main_decl(Expr::Array(vec![
        call("list", vec![num(1)]),
        call("tuple", vec![num(2)]),
    ]))]);
    assert!(matches!(p.eval_main(&[]), Err(EvalError::NotType(v)) if is_int(&v, 1)));
}

#[test]
fn lookup_fn_finds_declarations() {
    let p = program(vec![decl("five", vec![], var("uint"), num(5))]);
    assert!(p.lookup_fn(&"five".to_string()).unwrap().body.equals(&num(5)));
    assert!(matches!(
        p.lookup_fn(&"six".to_string()),
        Err(EvalError::NoSuchFunc(name)) if name == "six"
    ));
}
