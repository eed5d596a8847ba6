use rusht::{Error, Expr, Interpreter, Number};

fn num(x: i32) -> Expr {
    Expr::Num(Number::from_int(x))
}

fn run(src: &str) -> Result<Expr, Error> {
    Interpreter::new().interpret(src)
}

#[test]
fn arithmetic_folds_from_the_left() {
    assert_eq!(run("(+ 1 2 3)"), Ok(num(6)));
    assert_eq!(run("(- 10 2 3)"), Ok(num(5)));
    assert_eq!(run("(/ 12 2 3)"), Ok(num(2)));
}

#[test]
fn coercion_in_arithmetic() {
    assert_eq!(run("(+ true \"5\")"), Ok(num(6)));
    assert_eq!(run("(+ true \"foo\")"), Err(Error::UnexpectedType));
}

#[test]
fn strict_and_loose_equality() {
    assert_eq!(run("(== 4 4)"), Ok(Expr::Bool(true)));
    assert_eq!(run("(== 4 \"4\")"), Ok(Expr::Bool(false)));
    assert_eq!(run("(= 4 \"4\")"), Ok(Expr::Bool(true)));
}

#[test]
fn undefined_names() {
    assert_eq!(run("(foo 1)"), Err(Error::FunctionNotDefined("foo".to_string())));
    assert_eq!(run("(+ x 1)"), Err(Error::VariableNotDefined("x".to_string())));
}

#[test]
fn lambda_definition_and_call() {
    let mut it = Interpreter::new();
    assert!(it.interpret("(def add1 (func (n) (+ n 1)))").is_ok());
    assert_eq!(it.interpret("(add1 5)"), Ok(num(6)));
    assert_eq!(it.interpret("(add1 1 2)"), Err(Error::InvalidNumberOfArguments));
}

#[test]
fn list_operations() {
    assert_eq!(run("(nth 1 (quote (10 20 30)))"), Ok(num(20)));
    assert_eq!(
        run("(nth 5 (quote (10 20)))"),
        Err(Error::IndexOutOfBounds(Number::from_int(5)))
    );
    let mut it = Interpreter::new();
    assert!(it.interpret("(def l (quote (1 2)))").is_ok());
    assert_eq!(it.interpret("(append 3 l)"), Ok(Expr::List(vec![num(1), num(2), num(3)])));
    assert_eq!(it.get("l"), Some(&Expr::List(vec![num(1), num(2)])));
}

#[test]
fn quote_returns_a_single_datum() {
    assert_eq!(run("(quote (10 20 30))"), Ok(Expr::List(vec![num(10), num(20), num(30)])));
    assert_eq!(run("(quote x)"), Ok(Expr::Ident("x".to_string())));
    assert_eq!(run("(quote 10 20)"), Ok(Expr::List(vec![num(10), num(20)])));
    assert_eq!(run("(quote)"), Ok(Expr::List(vec![])));
    assert_eq!(
        run("(append 3 (quote (1 2)))"),
        Ok(Expr::List(vec![num(1), num(2), num(3)]))
    );
}

#[test]
fn unbalanced_input() {
    assert_eq!(run("("), Err(Error::MissingClosingParenthesis));
    assert_eq!(run(")"), Err(Error::UnexpectedClosingParenthesis));
    assert_eq!(run(""), Err(Error::UnexpectedEndOfTokenStream));
}

#[test]
fn balanced_source_parses_to_its_depth() {
    let toks = rusht::tokenize("(a (b (c)) d)");
    let e = rusht::parse(toks).unwrap();
    assert_eq!(e.to_text(), "(a (b (c)) d)");
    match e {
        Expr::List(items) => match &items[1] {
            Expr::List(inner) => assert!(matches!(&inner[1], Expr::List(x) if x.len() == 1)),
            _ => panic!("expected a list"),
        },
        _ => panic!("expected a list"),
    }
}

#[test]
fn shape_errors() {
    assert_eq!(run("()"), Err(Error::EmptyListExpression));
    assert_eq!(run("(1 2)"), Err(Error::NotAnIdentifier("1".to_string())));
    assert_eq!(run("(\"f\" 2)"), Err(Error::NotAnIdentifier("\"f\"".to_string())));
    assert_eq!(run("(+ + 1)"), Err(Error::AttemptedToUseFunctionAsVariable("+".to_string())));
    let mut it = Interpreter::new();
    assert_eq!(it.interpret("(def v 3)"), Ok(num(3)));
    assert_eq!(it.interpret("(v 1)"), Err(Error::UnexpectedType));
    assert_eq!(it.interpret("(def 1 3)"), Err(Error::UnexpectedType));
    assert_eq!(it.interpret("(def a)"), Err(Error::InvalidNumberOfArguments));
    assert_eq!(it.interpret("(func (1) 2)"), Err(Error::UnexpectedType));
    assert_eq!(it.interpret("(func (a))"), Err(Error::InvalidNumberOfArguments));
}

#[test]
fn unreadable_number() {
    assert_eq!(run("(+ 1.2.3 4)"), Err(Error::UnreadableTokens));
}

#[test]
fn lambda_body_does_not_touch_caller() {
    let mut it = Interpreter::new();
    assert!(it.interpret("(def f (func (x) (def y (+ x 0))))").is_ok());
    assert_eq!(it.interpret("(f 5)"), Ok(num(5)));
    assert_eq!(it.get("y"), None);
    assert_eq!(it.get("x"), None);
}

#[test]
fn lambda_sees_bindings_made_before_the_call() {
    let mut it = Interpreter::new();
    assert!(it.interpret("(def g (func (x) (+ x k)))").is_ok());
    assert!(it.interpret("(def k 10)").is_ok());
    assert_eq!(it.interpret("(g 1)"), Ok(num(11)));
}

#[test]
fn if_evaluates_both_branches() {
    assert_eq!(run("(if true 1 (exit 4))"), Err(Error::Exit(4)));
    assert_eq!(run("(if (< 1 2) \"yes\" \"no\")"), Ok(Expr::Str("yes".to_string())));
}

#[test]
fn read_waits_for_input() {
    let mut it = Interpreter::new();
    assert_eq!(it.interpret("(def s (read))"), Err(Error::AwaitingInput));
    assert_eq!(it.get("s"), None);
    it.provide_input("hello\n".to_string());
    assert_eq!(it.interpret("(def s (read))"), Ok(Expr::Str("hello\n".to_string())));
    assert_eq!(it.interpret("(read)"), Err(Error::AwaitingInput));
}

#[test]
fn exit_ends_evaluation() {
    assert_eq!(run("(exit)"), Err(Error::Exit(0)));
    assert_eq!(run("(exit 2)"), Err(Error::Exit(2)));
}

#[test]
fn division_by_zero_is_reported() {
    assert_eq!(run("(/ 1 0)"), Err(Error::DivisionByZero));
    assert_eq!(run("(% 1 0)"), Err(Error::DivisionByZero));
}

#[test]
fn concat_coerces_to_text() {
    assert_eq!(run("(concat \"a\" 2.5 true)"), Ok(Expr::Str("a2.5true".to_string())));
    assert_eq!(run("(concat \"x\" (/ 1 3))"), Ok(Expr::Str("x0.3333333333333333".to_string())));
}

#[test]
fn deep_nesting_hits_the_limit() {
    let mut src = String::new();
    for _ in 0..520 {
        src.push_str("(+ 1 ");
    }
    src.push('1');
    for _ in 0..520 {
        src.push(')');
    }
    assert_eq!(run(&src), Err(Error::DepthLimitExceeded));
}

#[test]
fn moderate_nesting_evaluates() {
    let mut src = String::new();
    for _ in 0..100 {
        src.push_str("(+ 1 ");
    }
    src.push('1');
    for _ in 0..100 {
        src.push(')');
    }
    assert_eq!(run(&src), Ok(num(101)));
}

#[test]
fn results_print_as_source() {
    assert_eq!(run("(quote 1 \"a\" b)").unwrap().to_text(), "(1 \"a\" b)");
    assert_eq!(run("(func (a b) (+ a b))").unwrap().to_text(), "\u{3bb} (a b) -> (+ a b)");
    assert_eq!(run("(/ 1 4)").unwrap().to_text(), "0.25");
}

#[test]
fn def_of_a_bare_identifier_binds_the_identifier() {
    let mut it = Interpreter::new();
    assert_eq!(it.interpret("(def y x)"), Ok(Expr::Ident("x".to_string())));
    assert_eq!(it.get("y"), Some(&Expr::Ident("x".to_string())));
}

#[test]
fn unfinished_input_is_recognised() {
    assert!(rusht::is_unfinished("(+ 1 (* 2"));
    assert!(!rusht::is_unfinished("(+ 1 2)"));
    assert!(!rusht::is_unfinished(")"));
    assert!(!rusht::is_unfinished("(+ 1.2.3"));
}

#[test]
fn strict_equality_of_numbers_is_by_value() {
    assert_eq!(run("(== 0.5 (/ 1 2))"), Ok(Expr::Bool(true)));
    assert_eq!(run("(= 0.5 (/ 1 2))"), Ok(Expr::Bool(true)));
    assert_eq!(run("(== 0.5 0.25)"), Ok(Expr::Bool(false)));
}

#[test]
fn string_coercion_reads_exponents() {
    assert_eq!(run("(+ \"1e3\" 1)"), Ok(num(1001)));
    assert_eq!(Expr::Str("1e3".to_string()).as_number(), Ok(Number::from_int(1000)));
}
