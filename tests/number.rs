use rusht::number::ArithOp;
use rusht::{Error, Number};

fn n(x: i32) -> Number {
    Number::from_int(x)
}

#[test]
fn number_text_forms() {
    assert_eq!(n(24).to_text(), "24");
    assert_eq!(n(-3).to_text(), "-3");
    assert_eq!(Number::ratio(5, 2).unwrap().to_text(), "2.5");
    assert_eq!(Number::ratio(1, 3).unwrap().to_text(), "0.3333333333333333");
    assert_eq!(Number::ratio(-2, 3).unwrap().to_text(), "-0.6666666666666666");
    assert_eq!(Number::ratio(22, 7).unwrap().to_text(), "3.1428571428571428");
    assert_eq!(Number::ratio(-1, 8).unwrap().to_text(), "-0.125");
}

#[test]
fn ratio_reduces() {
    let r = Number::ratio(6, -4).unwrap();
    assert_eq!((r.numer(), r.denom()), (-3, 2));
    assert_eq!(Number::ratio(1, 0), None);
    assert_eq!(Number::ratio(0, 5).unwrap(), n(0));
}

#[test]
fn parse_decimal_text() {
    assert_eq!(Number::parse("1.234").unwrap(), Number::ratio(617, 500).unwrap());
    assert_eq!(Number::parse(" -5 ").unwrap(), n(-5));
    assert_eq!(Number::parse("+.5").unwrap(), Number::ratio(1, 2).unwrap());
    assert_eq!(Number::parse("1.").unwrap(), n(1));
    assert_eq!(Number::parse("."), None);
    assert_eq!(Number::parse("1.2.3"), None);
    assert_eq!(Number::parse("abc"), None);
    assert_eq!(Number::parse(""), None);
}

#[test]
fn parse_too_many_digits() {
    assert_eq!(Number::parse("123456789012345678901234567890123456789"), None);
    assert_eq!(Number::parse("99999999999999999999"), None);
    assert_eq!(Number::parse("9223372036854775807").unwrap().numer(), i64::MAX);
}

#[test]
fn exact_arithmetic() {
    let a = Number::ratio(1, 10).unwrap();
    let b = Number::ratio(2, 10).unwrap();
    assert_eq!(Number::arith(ArithOp::Add, &a, &b), Ok(Number::ratio(3, 10).unwrap()));
    assert_eq!(Number::arith(ArithOp::Sub, &n(10), &n(2)), Ok(n(8)));
    assert_eq!(Number::arith(ArithOp::Mul, &a, &n(5)), Ok(Number::ratio(1, 2).unwrap()));
    assert_eq!(Number::arith(ArithOp::Div, &n(5), &n(2)), Ok(Number::ratio(5, 2).unwrap()));
    assert_eq!(Number::arith(ArithOp::Rem, &n(-7), &n(2)), Ok(n(-1)));
    assert_eq!(
        Number::arith(ArithOp::Rem, &Number::ratio(7, 2).unwrap(), &n(1)),
        Ok(Number::ratio(1, 2).unwrap())
    );
}

#[test]
fn division_by_zero() {
    assert_eq!(Number::arith(ArithOp::Div, &n(1), &n(0)), Err(Error::DivisionByZero));
    assert_eq!(Number::arith(ArithOp::Rem, &n(1), &n(0)), Err(Error::DivisionByZero));
}

#[test]
fn arithmetic_overflow() {
    let big = Number::ratio(i64::MAX, 1).unwrap();
    assert_eq!(Number::arith(ArithOp::Add, &big, &n(1)), Err(Error::ArithmeticOverflow));
    assert_eq!(Number::arith(ArithOp::Mul, &big, &n(2)), Err(Error::ArithmeticOverflow));
}

#[test]
fn comparisons_and_truncation() {
    assert!(Number::ratio(49, 10).unwrap().less_than(&n(5)));
    assert!(!n(5).less_than(&n(5)));
    assert!(n(5).same_value_as(&Number::ratio(10, 2).unwrap()));
    assert_eq!(Number::ratio(-7, 2).unwrap().truncate_to_i32(), -3);
    assert_eq!(Number::ratio(i64::MAX, 1).unwrap().truncate_to_i32(), i32::MAX);
}

#[test]
fn parse_exponent_notation() {
    assert_eq!(Number::parse("1e3").unwrap(), n(1000));
    assert_eq!(Number::parse("2.5E-1").unwrap(), Number::ratio(1, 4).unwrap());
    assert_eq!(Number::parse("1e+2").unwrap(), n(100));
    assert_eq!(Number::parse(" -1.5e2 ").unwrap(), n(-150));
    assert_eq!(Number::parse("12e-3").unwrap(), Number::ratio(3, 250).unwrap());
    assert_eq!(Number::parse("0e5000").unwrap(), n(0));
    assert_eq!(Number::parse("0.001e3").unwrap(), n(1));
    assert_eq!(Number::parse("1e18").unwrap().numer(), 1_000_000_000_000_000_000);
}

#[test]
fn parse_rejects_bad_exponents() {
    assert_eq!(Number::parse("1e"), None);
    assert_eq!(Number::parse("e3"), None);
    assert_eq!(Number::parse("1e-"), None);
    assert_eq!(Number::parse("1e3.5"), None);
    assert_eq!(Number::parse("1e400"), None);
    assert_eq!(Number::parse("1e19"), None);
    assert_eq!(Number::parse("1e-40"), None);
    assert_eq!(Number::parse("inf"), None);
    assert_eq!(Number::parse("nan"), None);
}
