use rusht::{parse, Error, Expr, Number, Token};
use rusht::Token::{Bool, Ident, Num, Paren, Str};

fn n(x: i32) -> Number {
    Number::from_int(x)
}

#[test]
fn test_empty() {
    assert_eq!(parse(vec![Paren('('), Paren(')')]), Ok(Expr::List(vec![])));
}

#[test]
fn test_single() {
    assert_eq!(parse(vec![Paren('('), Num(n(4)), Paren(')')]), Ok(Expr::List(vec![Expr::Num(n(4))])));
}

#[test]
fn test_nested() {
    assert_eq!(
        parse(vec![
            Paren('('),
            Num(n(4)),
            Paren('('),
            Num(n(5)),
            Str("foo".to_string()),
            Paren(')'),
            Paren(')')
        ]),
        Ok(Expr::List(vec![
            Expr::Num(n(4)),
            Expr::List(vec![Expr::Num(n(5)), Expr::Str("foo".to_string())])
        ]))
    );
}

#[test]
fn test_if() {
    assert_eq!(
        parse(vec![Paren('('), Ident("if".to_string()), Bool(true), Num(n(2)), Num(n(4)), Paren(')')]),
        Ok(Expr::List(vec![
            Expr::Ident("if".to_string()),
            Expr::Bool(true),
            Expr::Num(n(2)),
            Expr::Num(n(4))
        ]))
    );
}

#[test]
fn test_if_nested() {
    assert_eq!(
        parse(vec![
            Paren('('),
            Ident("if".to_string()),
            Paren('('),
            Ident("and".to_string()),
            Bool(true),
            Bool(true),
            Paren(')'),
            Num(n(2)),
            Num(n(4)),
            Paren(')')
        ]),
        Ok(Expr::List(vec![
            Expr::Ident("if".to_string()),
            Expr::List(vec![Expr::Ident("and".to_string()), Expr::Bool(true), Expr::Bool(true)]),
            Expr::Num(n(2)),
            Expr::Num(n(4))
        ]))
    );
}

#[test]
fn test_unexpected_closing_paren() {
    assert_eq!(parse(vec![Paren(')')]), Err(Error::UnexpectedClosingParenthesis));
}

#[test]
fn test_unclosed_expression() {
    assert_eq!(parse(vec![Paren('(')]), Err(Error::MissingClosingParenthesis));
}

#[test]
fn test_unexpected_end_of_tokenstream() {
    assert_eq!(parse(vec![]), Err(Error::UnexpectedEndOfTokenStream));
}

#[test]
fn parse_ignores_trailing_tokens() {
    assert_eq!(
        parse(vec![Ident("a".to_string()), Paren('('), Paren(')')]),
        Ok(Expr::Ident("a".to_string()))
    );
}
