use rusht::{Expr, Lambda, Number};

#[test]
fn test_stringify_string_slice() {
    assert_eq!(rusht::expr::stringify(&["foo", "bar"]), "(foo bar)")
}

#[test]
fn test_stringify_expr_slice() {
    assert_eq!(
        rusht::expr::stringify_exprs(&[
            Expr::Num(Number::from_int(5)),
            Expr::Str("foo".to_string()),
            Expr::List(vec![Expr::Ident("bar".to_string()), Expr::Bool(true),]),
            Expr::Lambda(Lambda {
                args: vec!["a".to_string()],
                body: Box::from(Expr::List(vec![
                    Expr::Ident("+".to_string()),
                    Expr::Ident("a".to_string()),
                    Expr::Num(Number::from_int(1))
                ])),
            })
        ]),
        "(5 \"foo\" (bar true) \u{3bb} (a) -> (+ a 1))"
    )
}

#[test]
fn list_text_matches_stringify_exprs() {
    let items = vec![Expr::Bool(false), Expr::Num(Number::ratio(1, 4).unwrap())];
    let text = rusht::expr::stringify_exprs(&items);
    assert_eq!(text, "(false 0.25)");
    assert_eq!(Expr::List(items).to_text(), text);
}

#[test]
fn stringify_empty_slice() {
    assert_eq!(rusht::expr::stringify(&[]), "()")
}

#[test]
fn coerce_string_to_number_trims() {
    let e = Expr::Str(" 2.5 ".to_string());
    assert_eq!(e.as_number(), Ok(Number::ratio(5, 2).unwrap()));
}

#[test]
fn coerce_bad_string_to_number_fails() {
    assert_eq!(Expr::Str("foo".to_string()).as_number(), Err(rusht::Error::UnexpectedType));
}

#[test]
fn coerce_to_text() {
    assert_eq!(Expr::Bool(false).as_text(), Ok("false".to_string()));
    assert_eq!(Expr::Num(Number::ratio(-7, 4).unwrap()).as_text(), Ok("-1.75".to_string()));
    assert_eq!(Expr::List(vec![]).as_text(), Err(rusht::Error::UnexpectedType));
}

#[test]
fn coerce_to_bool() {
    assert_eq!(Expr::Str(" true ".to_string()).as_bool(), Ok(true));
    assert_eq!(Expr::Str("1".to_string()).as_bool(), Ok(true));
    assert_eq!(Expr::Str("0".to_string()).as_bool(), Ok(false));
    assert_eq!(Expr::Str("".to_string()).as_bool(), Ok(false));
    assert_eq!(Expr::Str("yes".to_string()).as_bool(), Err(rusht::Error::UnexpectedType));
    assert_eq!(Expr::Num(Number::from_int(0)).as_bool(), Ok(false));
    assert_eq!(Expr::Num(Number::ratio(1, 3).unwrap()).as_bool(), Ok(true));
}

#[test]
fn builtin_and_string_text() {
    assert_eq!(Expr::Func(rusht::Builtin::Add).to_text(), "prelude function");
    assert_eq!(Expr::Str("hi".to_string()).to_text(), "\"hi\"");
}
