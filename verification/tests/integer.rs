use justdep::ast::Expr;
use justdep::integer::Integer;

#[test]
fn leading_zero_digits_are_dropped() {
    let n = Integer::new(false, vec![5, 0, 0]);
    assert_eq!(n.digits(), vec![5]);
    assert!(n.equals(&Integer::new(false, vec![5])));
    assert!(Integer::new(false, vec![0, 0]).digits().is_empty());
}

#[test]
fn zero_is_never_negative() {
    let zero = Integer::new(true, vec![0]);
    assert!(!zero.is_negative());
    assert!(zero.equals(&Integer::new(false, vec![])));
}

#[test]
fn sign_and_digits_decide_equality() {
    let a = Integer::new(false, vec![1, 2]);
    assert!(a.equals(&Integer::new(false, vec![1, 2, 0])));
    assert!(!a.equals(&Integer::new(true, vec![1, 2])));
    assert!(!a.equals(&Integer::new(false, vec![2, 1])));
    assert!(!a.equals(&Integer::new(false, vec![1])));
    assert!(Integer::new(true, vec![7]).is_negative());
    assert!(!Integer::new(false, vec![7]).is_negative());
}

#[test]
fn clone_keeps_the_number() {
    let a = Integer::new(true, vec![9, 8, 7]);
    let b = a.clone();
    assert!(a.equals(&b));
    assert_eq!(b.digits(), vec![9, 8, 7]);
    assert!(b.is_negative());
}

#[test]
fn expressions_compare_structurally() {
    let a = Expr::Call(
        "f".to_string(),
        vec![Expr::Var("x".to_string()), Expr::Array(vec![Expr::Int(Integer::new(false, vec![1]))])],
    );
    let b = a.clone();
    assert!(a.equals(&b));
    let c = Expr::Call(
        "f".to_string(),
        vec![Expr::Var("x".to_string()), Expr::Array(vec![Expr::Int(Integer::new(true, vec![1]))])],
    );
    assert!(!a.equals(&c));
    assert!(!a.equals(&Expr::Call("f".to_string(), vec![Expr::Var("x".to_string())])));
    assert!(!a.equals(&Expr::Var("f".to_string())));
    assert!(!Expr::Array(vec![]).equals(&Expr::Call("f".to_string(), vec![])));
}

#[test]
fn usize_conversions_are_exact() {
    assert_eq!(Integer::from_usize(0).digits(), Vec::<u32>::new());
    assert_eq!(Integer::from_usize(5).digits(), vec![5]);
    assert_eq!(Integer::from_usize(4294967295).digits(), vec![4294967295]);
    assert!(!Integer::from_usize(7).is_negative());
    assert_eq!(Integer::from_usize(usize::MAX).to_usize(), Some(usize::MAX));
    assert_eq!(Integer::new(false, vec![12]).to_usize(), Some(12));
    assert_eq!(Integer::new(false, vec![]).to_usize(), Some(0));
    assert_eq!(Integer::new(true, vec![12]).to_usize(), None);
    assert_eq!(Integer::new(false, vec![0, 0, 0, 0, 1]).to_usize(), None);
    if usize::BITS >= 64 {
        assert_eq!(Integer::from_usize(4294967296).digits(), vec![0, 1]);
        assert_eq!(Integer::new(false, vec![0, 1]).to_usize(), Some(4294967296));
    }
}

#[test]
fn decimal_digits_are_read_exactly() {
    let text = b"x 1234567890123456789012 y";
    let n = Integer::parse_decimal(text, 2, 24).unwrap();
    assert_eq!(n.digits(), vec![3625990676, 3977394955, 66]);
    assert!(!n.is_negative());
    assert!(Integer::parse_decimal(text, 2, 3).unwrap().equals(&Integer::from_usize(1)));
    assert!(Integer::parse_decimal(b"000", 0, 3).unwrap().equals(&Integer::from_usize(0)));
}
