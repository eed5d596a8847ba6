use rusht::{get_prelude, interpret, Env, Expr, Lambda, Number};

fn num(n: i32) -> Expr {
    Expr::Num(Number::from_int(n))
}

fn ident(s: &str) -> Expr {
    Expr::Ident(s.to_string())
}

#[test]
fn single_add() {
    let out = interpret(
        Expr::List(vec![Expr::Ident(String::from("+")), num(4), num(5), num(15)]),
        &mut get_prelude(),
    );
    assert_eq!(out, Ok(num(24)))
}

#[test]
fn nested_add() {
    let out = interpret(
        Expr::List(vec![
            Expr::Ident(String::from("+")),
            num(4),
            num(5),
            Expr::List(vec![Expr::Ident(String::from("+")), num(10), num(5)]),
        ]),
        &mut get_prelude(),
    );
    assert_eq!(out, Ok(num(24)))
}

#[test]
fn test_def() {
    let mut env = Env::new();

    interpret(
        Expr::List(vec![ident("def"), ident("a"), num(5)]),
        &mut env,
    )
    .expect("error");

    assert_eq!(env.get("a").expect("key missing"), &num(5))
}

#[test]
fn test_def_and_use() {
    let mut env = get_prelude();

    interpret(
        Expr::List(vec![ident("def"), ident("b"), num(5)]),
        &mut env,
    )
    .expect("error");

    let out = interpret(
        Expr::List(vec![ident("+"), ident("b"), num(10)]),
        &mut env,
    )
    .expect("error");

    assert_eq!(out, num(15))
}

#[test]
fn test_lambda_hello() {
    let mut env = get_prelude();

    interpret(
        Expr::List(vec![
            ident("def"),
            ident("hello"),
            Expr::List(vec![
                ident("func"),
                Expr::List(vec![ident("name")]),
                Expr::List(vec![
                    ident("concat"),
                    Expr::Str("Hello, ".to_string()),
                    ident("name"),
                    Expr::Str("!".to_string()),
                ]),
            ]),
        ]),
        &mut env,
    )
    .expect("error");

    let out = interpret(
        Expr::List(vec![ident("hello"), Expr::Str("Tester".to_string())]),
        &mut env,
    )
    .expect("error");

    assert_eq!(out, Expr::Str("Hello, Tester!".to_string()))
}

#[test]
fn test_lambda_nums() {
    let mut env = get_prelude();

    interpret(
        Expr::List(vec![
            ident("def"),
            ident("adding"),
            Expr::List(vec![
                ident("func"),
                Expr::List(vec![ident("a"), ident("b")]),
                Expr::List(vec![ident("+"), ident("a"), ident("b")]),
            ]),
        ]),
        &mut env,
    )
    .expect("error");

    let out = interpret(
        Expr::List(vec![ident("adding"), num(3), num(4)]),
        &mut env,
    )
    .expect("error");

    assert_eq!(out, num(7))
}

#[test]
fn bare_identifier_is_not_looked_up() {
    let mut env = get_prelude();
    interpret(Expr::List(vec![ident("def"), ident("x"), num(1)]), &mut env).expect("error");
    assert_eq!(interpret(ident("x"), &mut env), Ok(ident("x")));
}

#[test]
fn func_form_builds_a_lambda() {
    let mut env = get_prelude();
    let out = interpret(
        Expr::List(vec![
            ident("func"),
            Expr::List(vec![ident("n")]),
            Expr::List(vec![ident("+"), ident("n"), num(1)]),
        ]),
        &mut env,
    );
    assert_eq!(
        out,
        Ok(Expr::Lambda(Lambda {
            args: vec!["n".to_string()],
            body: Box::new(Expr::List(vec![ident("+"), ident("n"), num(1)])),
        }))
    );
}
