use justdep::ast::{Decl, Expr, Script};
use justdep::combine::Func;
use justdep::integer::Integer;
use justdep::namemap::NameMap;

fn var(name: &str) -> Expr {
    Expr::Var(name.to_string())
}

#[test]
fn empty_map_binds_nothing() {
    let m: NameMap<Expr> = NameMap::new();
    assert_eq!(m.len(), 0);
    assert!(m.get(&"x".to_string()).is_none());
    assert!(!m.contains_key(&"x".to_string()));
}

#[test]
fn insert_binds_and_replaces() {
    let mut m: NameMap<Expr> = NameMap::new();
    m.insert("x".to_string(), var("a"));
    m.insert("y".to_string(), var("b"));
    assert_eq!(m.len(), 2);
    assert!(m.get(&"x".to_string()).unwrap().equals(&var("a")));
    assert!(m.get(&"y".to_string()).unwrap().equals(&var("b")));
    m.insert("x".to_string(), var("c"));
    assert_eq!(m.len(), 2);
    assert!(m.get(&"x".to_string()).unwrap().equals(&var("c")));
    assert!(m.get(&"y".to_string()).unwrap().equals(&var("b")));
    assert!(m.contains_key(&"y".to_string()));
    assert!(!m.contains_key(&"z".to_string()));
}

#[test]
fn with_gives_the_extended_map() {
    let m: NameMap<Expr> = NameMap::new();
    let m = m.with("x".to_string(), var("a")).with("x".to_string(), var("b"));
    assert_eq!(m.len(), 1);
    assert!(m.get(&"x".to_string()).unwrap().equals(&var("b")));
}

#[test]
fn copies_of_declarations_are_equal_term_for_term() {
    let decl = Decl {
        args: vec![("x".to_string(), var("t"))],
        ret: var("t"),
        body: Expr::Call("f".to_string(), vec![var("x"), Expr::Int(Integer::new(false, vec![3]))]),
    };
    let copy = decl.clone();
    assert_eq!(copy.args.len(), 1);
    assert_eq!(copy.args[0].0, "x");
    assert!(copy.args[0].1.equals(&decl.args[0].1));
    assert!(copy.ret.equals(&decl.ret));
    assert!(copy.body.equals(&decl.body));
    let script = Script { decls: vec![("f".to_string(), decl), ("g".to_string(), copy)] };
    let again = script.clone();
    assert_eq!(again.decls.len(), 2);
    assert_eq!(again.decls[1].0, "g");
    assert!(again.decls[0].1.body.equals(&script.decls[0].1.body));
    let func = Func { args: vec![], ret: var("t"), body: var("b"), prelude: true };
    let same = func.clone();
    assert!(same.prelude && same.body.equals(&var("b")) && same.args.is_empty());
}
