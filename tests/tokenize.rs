use rusht::{tokenize, try_tokenize, Number, Token};
use rusht::Token::{Bool, Ident, Num, Paren, Str};

fn num(x: i32) -> Token {
    Num(Number::from_int(x))
}

#[test]
fn tokenize_empty() {
    assert_eq!(tokenize("()"), vec![Paren('('), Paren(')')]);
}

#[test]
fn tokenize_integer() {
    assert_eq!(tokenize("1"), vec![num(1)]);
}

#[test]
fn tokenize_long_integer() {
    assert_eq!(tokenize("1234"), vec![num(1234)]);
}

#[test]
fn tokenize_float() {
    assert_eq!(tokenize("1.234"), vec![Num(Number::ratio(1234, 1000).unwrap())]);
}

#[test]
fn tokenize_str() {
    assert_eq!(tokenize("\"foo\""), vec![Str("foo".to_string())]);
}

#[test]
fn tokenize_bool_true() {
    assert_eq!(tokenize("true"), vec![Bool(true)]);
}

#[test]
fn tokenize_bool_false() {
    assert_eq!(tokenize("false"), vec![Bool(false)]);
}

#[test]
fn tokenize_expr() {
    assert_eq!(
        tokenize("(foo 1 \"bar\" false 2)"),
        vec![
            Paren('('),
            Ident("foo".to_string()),
            num(1),
            Str("bar".to_string()),
            Bool(false),
            num(2),
            Paren(')')
        ]
    );
}

#[test]
fn tokenize_bool_expr() {
    assert_eq!(
        tokenize("(= true false)"),
        vec![Paren('('), Ident("=".to_string()), Bool(true), Bool(false), Paren(')')]
    );
}

#[test]
fn tokenize_nested_if_expr() {
    assert_eq!(
        tokenize("(if (all true false) 1 2)"),
        vec![
            Paren('('),
            Ident("if".to_string()),
            Paren('('),
            Ident("all".to_string()),
            Bool(true),
            Bool(false),
            Paren(')'),
            num(1),
            num(2),
            Paren(')')
        ]
    );
}

#[test]
fn tokenize_unterminated_string_takes_the_rest() {
    assert_eq!(tokenize("(a \"b c"), vec![Paren('('), Ident("a".to_string()), Str("b c".to_string())]);
}

#[test]
fn tokenize_word_stops_at_parens() {
    assert_eq!(
        tokenize("(f(g))"),
        vec![
            Paren('('),
            Ident("f".to_string()),
            Paren('('),
            Ident("g".to_string()),
            Paren(')'),
            Paren(')')
        ]
    );
}

#[test]
fn tokenize_whitespace_only() {
    assert_eq!(tokenize(" \t\n "), vec![]);
}

#[test]
fn try_tokenize_rejects_bad_number() {
    assert_eq!(try_tokenize("(+ 1.2.3 4)"), None);
    assert_eq!(try_tokenize("(+ 1 2)").map(|t| t.len()), Some(5));
}

#[test]
fn token_text() {
    assert_eq!(Paren('(').to_text(), "(");
    assert_eq!(Num(Number::ratio(5, 2).unwrap()).to_text(), "2.5");
    assert_eq!(Str("a b".to_string()).to_text(), "a b");
    assert_eq!(Ident("x".to_string()).to_text(), "x");
    assert_eq!(Bool(true).to_text(), "true");
}
