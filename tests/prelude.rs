use rusht::{apply_builtin, get_prelude, Error, Expr, Number};
use rusht::Expr::{Bool, List, Num, Str};

fn call(name: &str, args: Vec<Expr>) -> Result<Expr, Error> {
    match get_prelude().get(name).expect("function name not found in prelude") {
        Expr::Func(f) => apply_builtin(*f, &args, &Vec::new(), &mut 0),
        _ => panic!("expression is not a function"),
    }
}

fn n(x: i32) -> Expr {
    Num(Number::from_int(x))
}

fn r(a: i64, b: i64) -> Expr {
    Num(Number::ratio(a, b).unwrap())
}

#[test]
fn add_two() {
    assert_eq!(call("+", vec![n(1), n(2)]), Ok(n(3)));
}

#[test]
fn add_three() {
    assert_eq!(call("+", vec![n(1), n(2), n(2)]), Ok(n(5)));
}

#[test]
fn add_with_corecion() {
    assert_eq!(call("+", vec![Bool(true), Str("5".to_string())]), Ok(n(6)));
}

#[test]
fn sub() {
    assert_eq!(call("-", vec![n(5), n(2)]), Ok(n(3)));
}

#[test]
fn mul() {
    assert_eq!(call("*", vec![n(5), n(2)]), Ok(n(10)));
}

#[test]
fn div() {
    assert_eq!(call("/", vec![n(5), n(2)]), Ok(r(5, 2)));
}

#[test]
fn modul_num() {
    assert_eq!(call("%", vec![n(1), n(4)]), Ok(n(1)));
}

#[test]
fn modul_bool() {
    assert_eq!(call("%", vec![n(8), Bool(true)]), Ok(n(0)));
}

#[test]
fn concat() {
    assert_eq!(
        call("concat", vec![Str("foo".to_string()), Str("bar".to_string())]),
        Ok(Str("foobar".to_string()))
    );
}

#[test]
fn and_two() {
    assert_eq!(call("and", vec![Bool(true), Bool(true)]), Ok(Bool(true)));
}

#[test]
fn and_three() {
    assert_eq!(call("and", vec![Bool(true), Bool(false), Bool(true)]), Ok(Bool(false)));
}

#[test]
fn or_two() {
    assert_eq!(call("or", vec![Bool(false), Bool(false)]), Ok(Bool(false)));
}

#[test]
fn or_three() {
    assert_eq!(call("or", vec![Bool(true), Bool(false), Bool(true)]), Ok(Bool(true)));
}

#[test]
fn coercion_error() {
    assert_eq!(call("-", vec![Bool(true), Str("foo".to_string())]), Err(Error::UnexpectedType));
}

#[test]
fn if_true() {
    assert_eq!(call("if", vec![Bool(true), n(1), n(2)]), Ok(n(1)));
}

#[test]
fn if_false() {
    assert_eq!(call("if", vec![Bool(false), n(1), n(2)]), Ok(n(2)));
}

#[test]
fn if_no_conditional() {
    assert_eq!(call("if", vec![Str("foo".to_string()), n(1), n(2)]), Err(Error::UnexpectedType));
}

#[test]
fn if_too_few_args() {
    assert_eq!(call("if", vec![Bool(true), n(1)]), Err(Error::InvalidNumberOfArguments));
}

#[test]
fn if_too_many_args() {
    assert_eq!(call("if", vec![Bool(true), n(1), n(2), n(3)]), Err(Error::InvalidNumberOfArguments));
}

#[test]
fn bigger() {
    assert_eq!(call(">", vec![n(10), n(8)]), Ok(Bool(true)));
}

#[test]
fn equal_bigger() {
    assert_eq!(call(">=", vec![n(1), n(1)]), Ok(Bool(true)));
}

#[test]
fn equal_bigger_bool() {
    assert_eq!(call(">=", vec![Bool(false), n(1)]), Ok(Bool(false)));
}

#[test]
fn smaller() {
    assert_eq!(call("<", vec![n(5), r(49, 10)]), Ok(Bool(false)));
}

#[test]
fn equal_smaller() {
    assert_eq!(call("<=", vec![n(3), r(31, 10)]), Ok(Bool(true)));
}

#[test]
fn compare_true() {
    assert_eq!(call("==", vec![n(4), n(4)]), Ok(Bool(true)));
}

#[test]
fn compare_false() {
    assert_eq!(call("==", vec![n(4), n(3)]), Ok(Bool(false)));
}

#[test]
fn arithmetic_needs_an_argument() {
    assert_eq!(call("+", vec![]), Err(Error::InvalidNumberOfArguments));
    assert_eq!(call("concat", vec![]), Err(Error::InvalidNumberOfArguments));
    assert_eq!(call("and", vec![]), Err(Error::InvalidNumberOfArguments));
}

#[test]
fn comparisons_of_few_arguments_hold() {
    assert_eq!(call("<", vec![]), Ok(Bool(true)));
    assert_eq!(call("==", vec![n(1)]), Ok(Bool(true)));
}

#[test]
fn chained_comparison() {
    assert_eq!(call("<", vec![n(1), n(2), n(3)]), Ok(Bool(true)));
    assert_eq!(call("<", vec![n(1), n(3), n(2)]), Ok(Bool(false)));
}

#[test]
fn read_takes_a_pending_line() {
    let input = vec!["first\n".to_string(), "second\n".to_string()];
    let mut read = 1;
    let out = apply_builtin(rusht::Builtin::Read, &vec![n(9)], &input, &mut read);
    assert_eq!(out, Ok(Str("second\n".to_string())));
    assert_eq!(read, 2);
    let out = apply_builtin(rusht::Builtin::Read, &vec![], &input, &mut read);
    assert_eq!(out, Err(Error::AwaitingInput));
    assert_eq!(read, 2);
}

#[test]
fn exit_codes() {
    assert_eq!(call("exit", vec![]), Err(Error::Exit(0)));
    assert_eq!(call("exit", vec![r(7, 2)]), Err(Error::Exit(3)));
    assert_eq!(call("exit", vec![Str("2".to_string())]), Err(Error::Exit(2)));
    assert_eq!(call("exit", vec![n(1), n(2)]), Err(Error::InvalidNumberOfArguments));
    assert_eq!(call("exit", vec![Str("x".to_string())]), Err(Error::UnexpectedType));
}

#[test]
fn nth_and_append_need_a_list() {
    assert_eq!(call("nth", vec![n(0), n(1)]), Err(Error::UnexpectedType));
    assert_eq!(call("append", vec![n(0), n(1)]), Err(Error::UnexpectedType));
    assert_eq!(call("nth", vec![n(0)]), Err(Error::InvalidNumberOfArguments));
    assert_eq!(
        call("nth", vec![r(1, 2), List(vec![n(1), n(2)])]),
        Err(Error::IndexOutOfBounds(Number::ratio(1, 2).unwrap()))
    );
    assert_eq!(
        call("nth", vec![n(-1), List(vec![n(1)])]),
        Err(Error::IndexOutOfBounds(Number::from_int(-1)))
    );
}
