use justdep::ast::{Decl, Expr, Script};
use justdep::integer::Integer;
use justdep::parse::{
    decorate, expr, funcs_to_script, parse, parse_bytes, symbol, whitespace, word, word_owned,
    Failed, ParseErr, SyntaxErr,
};

fn var(name: &str) -> Expr {
    Expr::Var(name.to_string())
}

fn call(name: &str, args: Vec<Expr>) -> Expr {
    Expr::Call(name.to_string(), args)
}

fn num(n: u32) -> Expr {
    Expr::Int(Integer::new(false, vec![n]))
}

fn failure(text: &str) -> (usize, String) {
    match parse(text) {
        Ok(script) => panic!("expected a failure, got {:?}", script),
        Err(e) => {
            assert_eq!(e.text, text);
            (e.remaining, e.message)
        }
    }
}

fn only_decl(script: &Script) -> &(String, Decl) {
    assert_eq!(script.decls.len(), 1);
    &script.decls[0]
}

const ANY: &str = "Digit | TakeWhile1 word | Tag Expected: \"(\"";

#[test]
fn one_declaration() {
    let script = parse("f (x: uint) : uint = x;").unwrap();
    let (name, decl) = only_decl(&script);
    assert_eq!(name, "f");
    assert_eq!(decl.args.len(), 1);
    assert_eq!(decl.args[0].0, "x");
    assert!(decl.args[0].1.equals(&var("uint")));
    assert!(decl.ret.equals(&var("uint")));
    assert!(decl.body.equals(&var("x")));
}

#[test]
fn calls_numbers_and_brackets() {
    let script = parse("f (x: list t) : t = g 12 (h 3 x) y;").unwrap();
    let (_, decl) = only_decl(&script);
    assert!(decl.args[0].1.equals(&call("list", vec![var("t")])));
    assert!(decl.body.equals(&call(
        "g",
        vec![num(12), call("h", vec![num(3), var("x")]), var("y")]
    )));
}

#[test]
fn telescoping_arguments_in_source_order() {
    let script = parse("make (t: type) (n: uint) (v: vector t n) : vector t n = v;").unwrap();
    let (name, decl) = only_decl(&script);
    assert_eq!(name, "make");
    let names: Vec<&str> = decl.args.iter().map(|a| a.0.as_str()).collect();
    assert_eq!(names, vec!["t", "n", "v"]);
    assert!(decl.args[2].1.equals(&call("vector", vec![var("t"), var("n")])));
    assert!(decl.ret.equals(&call("vector", vec![var("t"), var("n")])));
}

#[test]
fn blanks_may_stand_anywhere_between_tokens() {
    let script = parse(" \n\t f\t(\r\n x :t )\n:\tt=  ( ( x ) )  ;\n\n").unwrap();
    let (name, decl) = only_decl(&script);
    assert_eq!(name, "f");
    assert_eq!(decl.args[0].0, "x");
    assert!(decl.body.equals(&var("x")));
}

#[test]
fn several_declarations_keep_their_order() {
    let script = parse("b (x: t) : t = x; a (y: t) : t = b y; c_1 (z: t) : t = 0;").unwrap();
    let names: Vec<&str> = script.decls.iter().map(|d| d.0.as_str()).collect();
    assert_eq!(names, vec!["b", "a", "c_1"]);
    assert!(script.decls[1].1.body.equals(&call("b", vec![var("y")])));
    assert!(script.decls[2].1.body.equals(&num(0)));
}

#[test]
fn numbers_are_read_in_full() {
    let script = parse("f (x: t) : t = g 18446744073709551616 007 4294967295;").unwrap();
    let (_, decl) = only_decl(&script);
    let expected = call(
        "g",
        vec![
            Expr::Int(Integer::new(false, vec![0, 0, 1])),
            num(7),
            num(4294967295),
        ],
    );
    assert!(decl.body.equals(&expected), "{:?}", decl.body);
}

#[test]
fn a_number_ends_where_its_digits_end() {
    let script = parse("f (x: t) : t = g 12ab;").unwrap();
    let (_, decl) = only_decl(&script);
    assert!(decl.body.equals(&call("g", vec![num(12), var("ab")])));
    let script = parse("f (x: t) : t = a1 2;").unwrap();
    let (_, decl) = only_decl(&script);
    assert!(decl.body.equals(&call("a1", vec![num(2)])));
}

#[test]
fn empty_text() {
    assert_eq!(failure(""), (0, "TakeWhile1 word".to_string()));
    assert_eq!(failure("  \n "), (0, "TakeWhile1 word".to_string()));
}

#[test]
fn declaration_without_arguments() {
    assert_eq!(failure("five : uint = 5;"), (11, "Tag Expected: \"(\"".to_string()));
    assert_eq!(failure("f"), (0, "Tag Expected: \"(\"".to_string()));
}

#[test]
fn missing_semicolon() {
    assert_eq!(failure("f (x: uint) : uint = x"), (0, "Tag Expected: \";\"".to_string()));
}

#[test]
fn missing_body_lists_every_alternative() {
    let expected = format!("TakeWhile1 word | {}", ANY);
    assert_eq!(failure("f (x: t) : t = ;"), (1, expected));
}

#[test]
fn error_that_got_furthest_is_kept() {
    // Inside the brackets the parser gets to the second bracket; the
    // alternatives that fail at the first are dropped.
    assert_eq!(failure("f (x: t) : t = (g ;"), (1, "Tag Expected: \")\"".to_string()));
}

#[test]
fn garbage_after_the_first_declaration_is_left_over() {
    assert_eq!(failure("a (x: t) : t = x; b"), (1, "Eof".to_string()));
    assert_eq!(failure("a (x: t) : t = x; b (y: t) = y;"), (13, "Eof".to_string()));
}

#[test]
fn duplicate_argument_name_ends_the_parse() {
    assert_eq!(
        failure("f (x: t) (x: t) : t = x;"),
        (8, "Duplicate argument name".to_string())
    );
    assert_eq!(
        failure("a (x: t) : t = x; f (x: t) (y: t) (x: t) : t = x;"),
        (8, "Duplicate argument name".to_string())
    );
}

#[test]
fn duplicate_function_is_reported_at_the_start_of_the_script() {
    assert_eq!(
        failure("  f (x: t) : t = x; g (x: t) : t = x; f (y: t) : t = y;"),
        (53, "Duplicate function: f".to_string())
    );
}

#[test]
fn bytes_outside_ascii_are_no_tokens() {
    let (remaining, message) = failure("f (x: t) : t = é;");
    assert_eq!(remaining, 3);
    assert_eq!(message, format!("TakeWhile1 word | {}", ANY));
}

#[test]
fn parse_bytes_agrees_with_parse() {
    let text = "f (x: t) : t = g x;";
    let from_bytes = parse_bytes(text.as_bytes()).unwrap();
    let from_text = parse(text).unwrap();
    assert_eq!(from_bytes.decls.len(), from_text.decls.len());
    assert!(from_bytes.decls[0].1.body.equals(&from_text.decls[0].1.body));
    let e = parse_bytes(b"f (x: t) : t = x").unwrap_err();
    assert_eq!((e.remaining, e.message.as_str()), (0, "Tag Expected: \";\""));
}

#[test]
fn expression_parser_reports_where_it_stopped() {
    let input = b"f (g 1) 2 ) rest";
    let (next, e) = expr(input, 0).unwrap();
    assert_eq!(next, 10);
    assert!(e.equals(&call("f", vec![call("g", vec![num(1)]), num(2)])));
    let (next, e) = expr(input, 3).unwrap();
    assert_eq!(next, 6);
    assert!(e.equals(&call("g", vec![num(1)])));
    let err = expr(input, 10).unwrap_err();
    assert_eq!(err.remaining, 6);
}

#[test]
fn token_parsers() {
    let input = b"  name_1  (x";
    assert_eq!(whitespace(input, 0), 2);
    assert_eq!(whitespace(input, 2), 2);
    assert_eq!(whitespace(input, 12), 12);
    assert_eq!(word(input, 2).unwrap(), (10, (2, 8)));
    let (next, name) = word_owned(input, 2).unwrap();
    assert_eq!((next, name.as_str()), (10, "name_1"));
    let e = word_owned(input, 10).unwrap_err();
    assert_eq!((e.remaining, e.message.as_str()), (2, "TakeWhile1 word"));
    assert_eq!(symbol(input, 10, b'(', "(").unwrap().0, 11);
    let e = symbol(input, 11, b')', ")").unwrap_err();
    assert_eq!((e.remaining, e.message.as_str()), (1, "Tag Expected: \")\""));
    let e = symbol(input, 12, b')', ")").unwrap_err();
    assert_eq!(e.remaining, 0);
}

#[test]
fn failures_combine_as_alternatives() {
    let near = SyntaxErr::from_error_kind(5, "A");
    let far = SyntaxErr::from_error_kind(2, "B");
    let r = near.or(far);
    assert_eq!((r.remaining, r.message.as_str()), (2, "B"));
    let r = SyntaxErr::from_error_kind(2, "B").or(SyntaxErr::from_error_kind(5, "A"));
    assert_eq!((r.remaining, r.message.as_str()), (2, "B"));
    let r = SyntaxErr::from_error_kind(3, "A").or(SyntaxErr::from_error_kind(3, "B"));
    assert_eq!((r.remaining, r.message.as_str()), (3, "A | B"));
}

#[test]
fn append_keeps_the_inner_failure() {
    let r = SyntaxErr::append(4, "Many1", SyntaxErr::from_error_kind(4, "Tag"));
    assert_eq!((r.remaining, r.message.as_str()), (4, "Tag"));
    let r = SyntaxErr::append(4, "Many1", SyntaxErr::from_error_kind(1, "Tag"));
    assert_eq!((r.remaining, r.message.as_str()), (1, "Tag"));
    let r = SyntaxErr::append(4, "Many1", SyntaxErr::from_error_kind(9, "Tag"));
    assert_eq!((r.remaining, r.message.as_str()), (4, "Many1"));
}

#[test]
fn decorate_adds_to_the_message() {
    let e = SyntaxErr::from_error_kind(3, "Tag").decorate("Expected: x");
    assert_eq!((e.remaining, e.message.as_str()), (3, "Tag Expected: x"));
    let e = SyntaxErr::from_external_error(7, "Duplicate function: f".to_string());
    assert_eq!((e.remaining, e.message.as_str()), (7, "Duplicate function: f"));
    match decorate(Failed::Error(SyntaxErr::from_error_kind(1, "A")), "b") {
        Failed::Error(e) => assert_eq!((e.remaining, e.message.as_str()), (1, "A b")),
        other => panic!("unexpected {:?}", other),
    }
    match decorate(Failed::Failure(SyntaxErr::from_error_kind(2, "C")), "d") {
        Failed::Failure(e) => assert_eq!((e.remaining, e.message.as_str()), (2, "C d")),
        other => panic!("unexpected {:?}", other),
    }
}

#[test]
fn parse_err_carries_the_text() {
    let e = ParseErr::new(SyntaxErr::from_error_kind(2, "Eof"), "abcd");
    assert_eq!(e.text, "abcd");
    assert_eq!(e.remaining, 2);
    assert_eq!(e.message, "Eof");
    assert_eq!(e.render(), "ab####cd Eof");
}

#[test]
fn rendered_failure_marks_the_place() {
    let e = parse("a (x: t) : t = x; b").unwrap_err();
    assert_eq!(e.render(), "a (x: t) : t = x; ####b Eof");
    let e = parse("f").unwrap_err();
    assert_eq!(e.render(), "f#### Tag Expected: \"(\"");
    let e = parse("f (x: t) : t = é;").unwrap_err();
    assert!(e.render().starts_with("f (x: t) : t = ####é; "));
}

#[test]
fn funcs_to_script_rejects_the_first_repeated_name() {
    let d = |body: u32| Decl { args: vec![], ret: var("t"), body: num(body) };
    let script = funcs_to_script(vec![("a".to_string(), d(1)), ("b".to_string(), d(2))]).unwrap();
    assert_eq!(script.decls.len(), 2);
    assert_eq!(script.decls[1].0, "b");
    let r = funcs_to_script(vec![
        ("a".to_string(), d(1)),
        ("b".to_string(), d(2)),
        ("b".to_string(), d(3)),
        ("a".to_string(), d(4)),
    ]);
    assert_eq!(r.unwrap_err(), "Duplicate function: b");
    assert!(funcs_to_script(vec![]).unwrap().decls.is_empty());
}
