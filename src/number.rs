//! Numbers of the language: exact fractions kept in lowest terms, with a
//! positive denominator and both parts within 64 bits.

use vstd::prelude::*;

use crate::error::Error;
use crate::text::{
    decimal, digit_char, digit_of, digit_value, is_digit, is_digit_char, push_char, push_decimal,
    sub_chars, trim_chars, trimmed,
};

verus! {

/// The model of a [`Number`]: the numerator and denominator of a fraction.
pub struct Ratio {
    pub n: int,
    pub d: int,
}

/// A number: a fraction in lowest terms with a positive denominator, so
/// that equal numbers have equal parts.
#[derive(Debug, PartialEq, Eq, Clone, Copy)]
pub struct Number {
    num: i64,
    den: i64,
}

/// The arithmetic operations on numbers.
#[derive(Debug, PartialEq, Eq, Clone, Copy)]
pub enum ArithOp {
    Add,
    Sub,
    Mul,
    Div,
    Rem,
}

pub open spec fn abs(x: int) -> nat {
    if x < 0 {
        (-x) as nat
    } else {
        x as nat
    }
}

/// Greatest common divisor, by Euclid's algorithm.
pub open spec fn gcd(a: nat, b: nat) -> nat
    decreases b,
{
    if b == 0 {
        a
    } else {
        gcd(b, a % b)
    }
}

/// The fraction `n / d` (for `d != 0`) with a positive denominator and both
/// parts divided by their greatest common divisor.
pub open spec fn reduce(n: int, d: int) -> Ratio {
    let n1 = if d < 0 {
        -n
    } else {
        n
    };
    let d1 = abs(d);
    let g = gcd(abs(n1), d1);
    Ratio { n: if n1 < 0 { -(abs(n1) / g) } else { (abs(n1) / g) as int }, d: (d1 / g) as int }
}

/// Whether a fraction is held by a [`Number`].
pub open spec fn fits(r: Ratio) -> bool {
    i64::MIN < r.n <= i64::MAX && 0 < r.d <= i64::MAX
}

/// Remainder of the division truncated toward zero: it has the sign of `x`.
pub open spec fn trunc_rem(x: int, y: int) -> int {
    if x < 0 {
        -(abs(x) % abs(y))
    } else {
        (abs(x) % abs(y)) as int
    }
}

/// The unreduced numerator and denominator of `a op b`.
pub open spec fn raw_result(op: ArithOp, a: Ratio, b: Ratio) -> (int, int) {
    match op {
        ArithOp::Add => (a.n * b.d + b.n * a.d, a.d * b.d),
        ArithOp::Sub => (a.n * b.d - b.n * a.d, a.d * b.d),
        ArithOp::Mul => (a.n * b.n, a.d * b.d),
        ArithOp::Div => (a.n * b.d, a.d * b.n),
        ArithOp::Rem => (trunc_rem(a.n * b.d, b.n * a.d), a.d * b.d),
    }
}

/// The exact result of `a op b`, or why there is none.
pub open spec fn arith(op: ArithOp, a: Ratio, b: Ratio) -> Result<Ratio, crate::error::ErrorV> {
    if (op == ArithOp::Div || op == ArithOp::Rem) && b.n == 0 {
        Err(crate::error::ErrorV::DivisionByZero)
    } else {
        let (n, d) = raw_result(op, a, b);
        if fits(reduce(n, d)) {
            Ok(reduce(n, d))
        } else {
            Err(crate::error::ErrorV::ArithmeticOverflow)
        }
    }
}

/// `a < b` as numbers.
pub open spec fn less(a: Ratio, b: Ratio) -> bool {
    a.n * b.d < b.n * a.d
}

/// `a == b` as numbers.
pub open spec fn same_value(a: Ratio, b: Ratio) -> bool {
    a.n * b.d == b.n * a.d
}

/// The integer part of a fraction, toward zero, held within `i32`.
pub open spec fn trunc_i32(r: Ratio) -> i32 {
    let q: int = if r.n < 0 {
        -(abs(r.n) / abs(r.d))
    } else {
        (abs(r.n) / abs(r.d)) as int
    };
    if q < i32::MIN {
        i32::MIN
    } else if q > i32::MAX {
        i32::MAX
    } else {
        q as i32
    }
}

/// A fraction whose decimal expansion ends within this many digits is
/// written out exactly.
pub const FRACTION_DIGITS: u64 = 64;

/// The digits after the point that are written of an expansion that does
/// not end: it is cut off there, toward zero.
pub const PRINTED_DIGITS: u64 = 16;

/// The digits of `r / d` after the decimal point (for `r < d`), by long
/// division, up to `fuel` of them.
pub open spec fn fraction_digits(r: nat, d: nat, fuel: nat) -> Seq<char>
    decreases fuel,
{
    if r == 0 || fuel == 0 || d == 0 {
        seq![]
    } else {
        seq![digit_char((r * 10) / d)] + fraction_digits((r * 10) % d, d, (fuel - 1) as nat)
    }
}

/// Whether the long division of `r / d` ends within `fuel` digits.
pub open spec fn fraction_ends(r: nat, d: nat, fuel: nat) -> bool
    decreases fuel,
{
    if r == 0 {
        true
    } else if fuel == 0 || d == 0 {
        false
    } else {
        fraction_ends((r * 10) % d, d, (fuel - 1) as nat)
    }
}

/// The decimal text of a number: its exact expansion when that ends
/// (`2.5`, `-3`), else its first [`PRINTED_DIGITS`] digits after the point
/// (`0.3333333333333333` for a third).
pub open spec fn number_text(x: Ratio) -> Seq<char> {
    let sign = if x.n < 0 {
        seq!['-']
    } else {
        seq![]
    };
    let a = abs(x.n);
    let d = abs(x.d);
    let digits = if fraction_ends(a % d, d, FRACTION_DIGITS as nat) {
        FRACTION_DIGITS
    } else {
        PRINTED_DIGITS
    };
    if a % d == 0 {
        sign + decimal(a / d)
    } else {
        sign + decimal(a / d) + seq!['.'] + fraction_digits(a % d, d, digits as nat)
    }
}

/// Whether every character of `s` is an ASCII digit.
pub open spec fn all_digits(s: Seq<char>) -> bool {
    forall|i: int| 0 <= i < s.len() ==> is_digit(#[trigger] s[i])
}

/// The number written by a sequence of digits.
pub open spec fn digits_value(s: Seq<char>) -> nat
    decreases s.len(),
{
    if s.len() == 0 {
        0
    } else {
        digits_value(s.drop_last()) * 10 + digit_value(s.last())
    }
}

pub open spec fn pow10(k: nat) -> nat
    decreases k,
{
    if k == 0 {
        1
    } else {
        10 * pow10((k - 1) as nat)
    }
}

/// The first position at or after `i` that holds `c`, or the length.
pub open spec fn find_char(s: Seq<char>, c: char, i: int) -> int
    decreases s.len() - i,
{
    if i < 0 || i >= s.len() {
        s.len() as int
    } else if s[i] == c {
        i
    } else {
        find_char(s, c, i + 1)
    }
}

/// At most this many digits are read in a number's text.
pub const MAX_DIGITS: usize = 38;

/// The digits before the decimal point.
pub open spec fn whole_part(s: Seq<char>) -> Seq<char> {
    s.take(find_char(s, '.', 0))
}

/// The digits after the decimal point, if there is one.
pub open spec fn fraction_part(s: Seq<char>) -> Seq<char> {
    let k = find_char(s, '.', 0);
    if k < s.len() {
        s.skip(k + 1)
    } else {
        seq![]
    }
}

/// The digits of decimal text without its point, and how many of them
/// follow the point: digits, optionally a point and more digits, at least
/// one digit and at most [`MAX_DIGITS`] in all.
pub open spec fn mantissa(s: Seq<char>) -> Option<(nat, nat)> {
    let a = whole_part(s);
    let b = fraction_part(s);
    if all_digits(a) && all_digits(b) && 0 < a.len() + b.len() <= MAX_DIGITS {
        Some((digits_value(a + b), b.len()))
    } else {
        None
    }
}

/// The fraction `n / d` in lowest terms, when both parts have at most
/// [`MAX_DIGITS`] digits and the result is held by a [`Number`].
pub open spec fn from_parts(n: nat, d: nat) -> Option<Ratio> {
    if n < pow10(MAX_DIGITS as nat) && 0 < d <= pow10(MAX_DIGITS as nat) && fits(
        reduce(n as int, d as int),
    ) {
        Some(reduce(n as int, d as int))
    } else {
        None
    }
}

/// The value of decimal text: digits, optionally a point and more digits,
/// as [`mantissa`] reads them; `None` for other text and for values that
/// no [`Number`] holds.
pub open spec fn decimal_value(s: Seq<char>) -> Option<Ratio> {
    match mantissa(s) {
        Some((m, f)) => from_parts(m, pow10(f)),
        None => None,
    }
}

/// The first position at or after `i` that holds `e` or `E`, or the length.
pub open spec fn find_exponent(s: Seq<char>, i: int) -> int
    decreases s.len() - i,
{
    if i < 0 || i >= s.len() {
        s.len() as int
    } else if s[i] == 'e' || s[i] == 'E' {
        i
    } else {
        find_exponent(s, i + 1)
    }
}

/// An exponent: an optional sign and at least one digit. Gives whether it
/// is negative, and its magnitude.
pub open spec fn exponent(x: Seq<char>) -> Option<(bool, nat)> {
    if x.len() > 0 && (x[0] == '-' || x[0] == '+') {
        let ds = x.skip(1);
        if 0 < ds.len() && all_digits(ds) {
            Some((x[0] == '-', digits_value(ds)))
        } else {
            None
        }
    } else if 0 < x.len() && all_digits(x) {
        Some((false, digits_value(x)))
    } else {
        None
    }
}

/// `m / 10^f` times `10^e`, with `e` the exponent of sign `neg` and
/// magnitude `mag`, as a numerator and a denominator.
pub open spec fn scaled(m: nat, f: nat, neg: bool, mag: nat) -> (nat, nat) {
    if neg {
        (m, pow10(f + mag))
    } else if mag <= f {
        (m, pow10((f - mag) as nat))
    } else {
        (m * pow10((mag - f) as nat), 1)
    }
}

/// The value of unsigned number text: decimal text as [`mantissa`] reads
/// it, optionally followed by `e` or `E` and an [`exponent`] (`1e3`,
/// `2.5E-1`). The value, with the exponent applied, must be a fraction
/// whose numerator and reduced denominator have at most [`MAX_DIGITS`]
/// digits and that a [`Number`] holds; `None` otherwise, and for other text.
pub open spec fn unsigned_value(s: Seq<char>) -> Option<Ratio> {
    let k = find_exponent(s, 0);
    match mantissa(s.take(k)) {
        None => None,
        Some((m, f)) => if k < s.len() {
            match exponent(s.skip(k + 1)) {
                None => None,
                Some((neg, mag)) => {
                    let (n, d) = scaled(m, f, neg, mag);
                    from_parts(n, d)
                },
            }
        } else {
            from_parts(m, pow10(f))
        },
    }
}

/// The value of number text with an optional leading `+` or `-`.
pub open spec fn signed_value(s: Seq<char>) -> Option<Ratio> {
    if s.len() > 0 && s[0] == '-' {
        match unsigned_value(s.skip(1)) {
            Some(r) => Some(Ratio { n: -r.n, d: r.d }),
            None => None,
        }
    } else if s.len() > 0 && s[0] == '+' {
        unsigned_value(s.skip(1))
    } else {
        unsigned_value(s)
    }
}

/// The model of an arithmetic result.
pub open spec fn result_view(r: Result<Number, Error>) -> Result<Ratio, crate::error::ErrorV> {
    match r {
        Ok(x) => Ok(x@),
        Err(e) => Err(e@),
    }
}

/// The model of an optional number.
pub open spec fn option_view(r: Option<Number>) -> Option<Ratio> {
    match r {
        Some(x) => Some(x@),
        None => None,
    }
}

proof fn lemma_gcd_bounds(a: nat, b: nat)
    requires
        b > 0,
    ensures
        0 < gcd(a, b) <= b,
    decreases b,
{
    assert(gcd(a, b) == gcd(b, a % b));
    if a % b != 0 {
        lemma_gcd_bounds(b, a % b);
    } else {
        assert(gcd(b, 0) == b);
    }
}

proof fn lemma_gcd_divides(a: nat, b: nat)
    requires
        a > 0 || b > 0,
    ensures
        gcd(a, b) > 0,
        a % gcd(a, b) == 0,
        b % gcd(a, b) == 0,
    decreases b,
{
    if b == 0 {
        vstd::arithmetic::div_mod::lemma_mod_multiples_basic(1, a as int);
        vstd::arithmetic::div_mod::lemma_mod_multiples_basic(0, a as int);
    } else {
        let g = gcd(b, a % b);
        assert(gcd(a, b) == g);
        lemma_gcd_divides(b, a % b);
        vstd::arithmetic::div_mod::lemma_fundamental_div_mod(b as int, g as int);
        vstd::arithmetic::div_mod::lemma_fundamental_div_mod((a % b) as int, g as int);
        vstd::arithmetic::div_mod::lemma_fundamental_div_mod(a as int, b as int);
        let k = (b / g) * (a / b) + (a % b) / g;
        assert(a == k * g) by (nonlinear_arith)
            requires
                b == g * (b / g),
                a % b == g * ((a % b) / g),
                a == b * (a / b) + a % b,
                k == (b / g) * (a / b) + (a % b) / g,
        ;
        vstd::arithmetic::div_mod::lemma_mod_multiples_basic(k as int, g as int);
    }
}

/// A fraction in lowest terms with a positive denominator.
pub open spec fn lowest_terms(r: Ratio) -> bool {
    r.d > 0 && gcd(abs(r.n), r.d as nat) == 1
}

proof fn lemma_gcd_scale(k: nat, a: nat, b: nat)
    requires
        k > 0,
    ensures
        gcd(k * a, k * b) == k * gcd(a, b),
    decreases b,
{
    if b == 0 {
        assert(k * b == 0);
        assert(gcd(k * a, 0) == k * a);
    } else {
        vstd::arithmetic::div_mod::lemma_fundamental_div_mod(a as int, b as int);
        let q = (a / b) as int;
        let m = (a % b) as int;
        assert(k * a == q * (k * b) + k * m && 0 <= k * m < k * b) by (nonlinear_arith)
            requires
                a == b * q + m,
                0 <= m < b,
                k > 0,
        ;
        vstd::arithmetic::div_mod::lemma_fundamental_div_mod_converse(
            (k * a) as int,
            (k * b) as int,
            q,
            k * m,
        );
        assert(k * b > 0) by (nonlinear_arith)
            requires
                k > 0,
                b > 0,
        ;
        assert(gcd(k * a, k * b) == gcd(k * b, (k * a) % (k * b)));
        lemma_gcd_scale(k, b, a % b);
        assert((k * (a % b)) as nat == ((k * a) % (k * b)) as nat);
    }
}

proof fn lemma_common_divisor(c: nat, a: nat, b: nat)
    requires
        c > 0,
        a % c == 0,
        b % c == 0,
    ensures
        gcd(a, b) % c == 0,
    decreases b,
{
    if b > 0 {
        vstd::arithmetic::div_mod::lemma_fundamental_div_mod(a as int, b as int);
        vstd::arithmetic::div_mod::lemma_fundamental_div_mod(a as int, c as int);
        vstd::arithmetic::div_mod::lemma_fundamental_div_mod(b as int, c as int);
        let x = (a / c) as int;
        let y = (b / c) as int;
        let q = (a / b) as int;
        let w = x - y * q;
        assert(a % b == w * c) by (nonlinear_arith)
            requires
                a == c * x,
                b == c * y,
                a == b * q + a % b,
                w == x - y * q,
        ;
        vstd::arithmetic::div_mod::lemma_mod_multiples_basic(w, c as int);
        assert(gcd(a, b) == gcd(b, a % b));
        lemma_common_divisor(c, b, a % b);
    }
}

/// A fraction in lowest terms with a positive denominator is the only one
/// of its value: for such fractions, equal value means equal parts.
pub proof fn lemma_lowest_terms_unique(x: Ratio, y: Ratio)
    requires
        lowest_terms(x),
        lowest_terms(y),
        same_value(x, y),
    ensures
        x == y,
{
    let a = abs(x.n);
    let b = x.d as nat;
    let c = abs(y.n);
    let d = y.d as nat;
    assert(a * d == c * b) by (nonlinear_arith)
        requires
            x.n * y.d == y.n * x.d,
            a == abs(x.n),
            c == abs(y.n),
            b == x.d,
            d == y.d,
            b > 0,
            d > 0,
    ;
    // b divides a * d and b * d, so it divides their gcd, which is d.
    lemma_gcd_scale(d, a, b);
    assert(gcd(d * a, d * b) == d);
    vstd::arithmetic::div_mod::lemma_mod_multiples_basic(c as int, b as int);
    vstd::arithmetic::div_mod::lemma_mod_multiples_basic(d as int, b as int);
    assert(d * a == c * b && d * b == d * b) by (nonlinear_arith)
        requires
            a * d == c * b,
    ;
    lemma_common_divisor(b, d * a, d * b);
    // Likewise d divides b.
    lemma_gcd_scale(b, c, d);
    assert(gcd(b * c, b * d) == b);
    vstd::arithmetic::div_mod::lemma_mod_multiples_basic(a as int, d as int);
    vstd::arithmetic::div_mod::lemma_mod_multiples_basic(b as int, d as int);
    assert(b * c == a * d && b * d == b * d) by (nonlinear_arith)
        requires
            a * d == c * b,
    ;
    lemma_common_divisor(d, b * c, b * d);
    vstd::arithmetic::div_mod::lemma_fundamental_div_mod(d as int, b as int);
    vstd::arithmetic::div_mod::lemma_fundamental_div_mod(b as int, d as int);
    assert(b == d) by (nonlinear_arith)
        requires
            d == b * (d / b),
            b == d * (b / d),
            b > 0,
            d > 0,
    ;
    assert(a == c) by (nonlinear_arith)
        requires
            a * d == c * b,
            b == d,
            d > 0,
    ;
    assert(x.n == y.n) by (nonlinear_arith)
        requires
            x.n * y.d == y.n * x.d,
            x.d == y.d,
            y.d > 0,
    ;
}

/// Reducing a fraction keeps its value: `reduce(n, d)` is `n / d`, in
/// lowest terms.
pub proof fn lemma_reduce_value(n: int, d: int)
    requires
        d != 0,
    ensures
        lowest_terms(reduce(n, d)),
        reduce(n, d).n * d == n * reduce(n, d).d,
{
    let n1 = if d < 0 {
        -n
    } else {
        n
    };
    let d1 = abs(d);
    let a = abs(n1);
    lemma_gcd_divides(a, d1);
    let g = gcd(a, d1);
    vstd::arithmetic::div_mod::lemma_fundamental_div_mod(a as int, g as int);
    vstd::arithmetic::div_mod::lemma_fundamental_div_mod(d1 as int, g as int);
    let qa = a / g;
    let qd = d1 / g;
    assert(qd > 0) by (nonlinear_arith)
        requires
            d1 == g * qd,
            d1 > 0,
            g > 0,
    ;
    assert(qa * d1 == a * qd) by (nonlinear_arith)
        requires
            a == g * qa,
            d1 == g * qd,
    ;
    let r = reduce(n, d);
    assert(r.d == qd);
    if n1 < 0 {
        assert(r.n == -qa);
    } else {
        assert(r.n == qa);
    }
    assert(r.n * d1 == n1 * qd) by (nonlinear_arith)
        requires
            qa * d1 == a * qd,
            a == abs(n1),
            r.n == (if n1 < 0 { -qa } else { qa as int }),
    ;
    assert(r.n * d == n * r.d) by (nonlinear_arith)
        requires
            r.n * d1 == n1 * qd,
            r.d == qd,
            d1 == abs(d),
            n1 == (if d < 0 { -n } else { n }),
    ;
    lemma_gcd_scale(g, qa, qd);
    assert(g * qa == a && g * qd == d1) by (nonlinear_arith)
        requires
            a == g * qa,
            d1 == g * qd,
    ;
    assert(gcd(qa, qd) == 1) by (nonlinear_arith)
        requires
            g * gcd(qa, qd) == g,
            g > 0,
    ;
    assert(abs(r.n) == qa);
}

proof fn lemma_product_bound(x: int, y: int)
    requires
        -i64::MAX <= x <= i64::MAX,
        -i64::MAX <= y <= i64::MAX,
    ensures
        -(i64::MAX * i64::MAX) <= x * y <= i64::MAX * i64::MAX,
{
    assert(-(i64::MAX * i64::MAX) <= x * y <= i64::MAX * i64::MAX) by (nonlinear_arith)
        requires
            -i64::MAX <= x <= i64::MAX,
            -i64::MAX <= y <= i64::MAX,
    ;
}

proof fn lemma_digits_value_bound(s: Seq<char>)
    requires
        all_digits(s),
    ensures
        digits_value(s) < pow10(s.len()),
    decreases s.len(),
{
    if s.len() > 0 {
        assert(is_digit(s[s.len() - 1]));
        lemma_digits_value_bound(s.drop_last());
    }
}

proof fn lemma_pow10_monotonic(j: nat, k: nat)
    requires
        j <= k,
    ensures
        1 <= pow10(j) <= pow10(k),
    decreases k,
{
    if k > 0 {
        if j < k {
            lemma_pow10_monotonic(j, (k - 1) as nat);
        } else {
            lemma_pow10_monotonic(0, (k - 1) as nat);
        }
    }
}

fn gcd_u128(a: u128, b: u128) -> (g: u128)
    ensures
        g == gcd(a as nat, b as nat),
{
    let mut x = a;
    let mut y = b;
    while y != 0
        invariant
            gcd(x as nat, y as nat) == gcd(a as nat, b as nat),
        decreases y,
    {
        let t = x % y;
        x = y;
        y = t;
    }
    x
}

/// The digits and point count of decimal text, as [`mantissa`] gives them.
fn parse_mantissa(t: &Vec<char>) -> (r: Option<(u128, usize)>)
    ensures
        match r {
            Some((m, f)) => mantissa(t@) == Some((m as nat, f as nat)) && f <= MAX_DIGITS,
            None => mantissa(t@) is None,
        },
{
    let n = t.len();
    let mut k: usize = 0;
    while k < n && t[k] != '.'
        invariant
            k <= n == t@.len(),
            find_char(t@, '.', 0) == find_char(t@, '.', k as int),
        decreases n - k,
    {
        k = k + 1;
    }
    let ghost a = whole_part(t@);
    let ghost b = fraction_part(t@);
    assert(a =~= t@.take(k as int));
    proof {
        reveal_with_fuel(pow10, 40);
        assert(pow10(38) == 100000000000000000000000000000000000000nat);
    }
    let mut acc: u128 = 0;
    let mut i: usize = 0;
    while i < k
        invariant
            i <= k <= n == t@.len(),
            a == t@.take(k as int),
            a == whole_part(t@),
            b == fraction_part(t@),
            all_digits(a.take(i as int)),
            acc == digits_value(a.take(i as int)),
            i <= MAX_DIGITS,
            pow10(38) == 100000000000000000000000000000000000000nat,
        decreases k - i,
    {
        if i >= MAX_DIGITS {
            proof {
                assert(a.len() + b.len() > MAX_DIGITS);
            }
            return None;
        }
        if !is_digit_char(t[i]) {
            assert(!is_digit(a[i as int]));
            return None;
        }
        let dv = digit_of(t[i]);
        proof {
            lemma_digits_value_bound(a.take(i as int));
            lemma_pow10_monotonic(i as nat, 37);
            assert(a.take(i + 1).drop_last() =~= a.take(i as int));
            assert(pow10(38) == 10 * pow10(37));
        }
        acc = acc * 10 + dv as u128;
        i = i + 1;
        assert(all_digits(a.take(i as int)));
    }
    assert(a.take(k as int) =~= a);
    let mut den: u128 = 1;
    if k < n {
        assert(b =~= t@.skip(k + 1));
        let mut j: usize = k + 1;
        while j < n
            invariant
                k < j <= n == t@.len(),
                a.len() == k,
                b == t@.skip(k + 1),
                a == whole_part(t@),
                b == fraction_part(t@),
                all_digits(a),
                all_digits(b.take(j - k - 1)),
                acc == digits_value(a + b.take(j - k - 1)),
                den == pow10((j - k - 1) as nat),
                k + (j - k - 1) <= MAX_DIGITS,
                pow10(38) == 100000000000000000000000000000000000000nat,
            decreases n - j,
        {
            let ghost m = (j - k - 1) as int;
            if k + (j - k - 1) >= MAX_DIGITS {
                return None;
            }
            if !is_digit_char(t[j]) {
                assert(!is_digit(b[m]));
                return None;
            }
            let dv = digit_of(t[j]);
            proof {
                assert(all_digits(a + b.take(m)));
                lemma_digits_value_bound(a + b.take(m));
                lemma_pow10_monotonic((k + m) as nat, 37);
                lemma_pow10_monotonic(m as nat, 37);
                assert((a + b.take(m + 1)).drop_last() =~= a + b.take(m));
                assert((a + b.take(m + 1)).last() == t@[j as int]);
                assert(pow10(38) == 10 * pow10(37));
            }
            acc = acc * 10 + dv as u128;
            den = den * 10;
            j = j + 1;
            assert(all_digits(b.take(j - k - 1)));
        }
        assert(b.take(n - k - 1) =~= b);
    } else {
        assert(b =~= seq![]);
        assert(a + b =~= a);
    }
    let f: usize = if k < n {
        n - k - 1
    } else {
        0
    };
    if k + f == 0 {
        return None;
    }
    Some((acc, f))
}

proof fn lemma_pow10_38()
    ensures
        pow10(38) == 100000000000000000000000000000000000000nat,
        pow10(39) > pow10(38),
{
    reveal_with_fuel(pow10, 41);
}

/// `10^k`, for `k` up to [`MAX_DIGITS`].
fn pow10_u128(k: usize) -> (r: u128)
    requires
        k <= MAX_DIGITS,
    ensures
        r == pow10(k as nat),
{
    proof {
        lemma_pow10_38();
    }
    let mut r: u128 = 1;
    let mut i: usize = 0;
    while i < k
        invariant
            i <= k <= MAX_DIGITS,
            r == pow10(i as nat),
            pow10(38) == 100000000000000000000000000000000000000nat,
        decreases k - i,
    {
        proof {
            lemma_pow10_monotonic(i as nat, 37);
        }
        r = r * 10;
        i = i + 1;
    }
    r
}

/// The fraction `n / d`, as [`from_parts`] gives it.
fn number_from_parts(n: u128, d: u128) -> (r: Option<Number>)
    requires
        n < pow10(MAX_DIGITS as nat),
        0 < d <= pow10(MAX_DIGITS as nat),
    ensures
        option_view(r) == from_parts(n as nat, d as nat),
{
    proof {
        lemma_pow10_38();
    }
    match Number::reduced(n as i128, d as i128) {
        Ok(x) => Some(x),
        Err(_) => None,
    }
}

/// The value of decimal text, as [`decimal_value`] gives it.
pub fn parse_decimal(t: &Vec<char>) -> (r: Option<Number>)
    ensures
        option_view(r) == decimal_value(t@),
{
    match parse_mantissa(t) {
        Some((m, f)) => {
            proof {
                let a = whole_part(t@);
                let b = fraction_part(t@);
                lemma_digits_value_bound(a + b);
                lemma_pow10_monotonic((a + b).len(), MAX_DIGITS as nat);
                lemma_pow10_monotonic(f as nat, MAX_DIGITS as nat);
            }
            let d = pow10_u128(f);
            number_from_parts(m, d)
        },
        None => None,
    }
}

/// The sign and magnitude of an exponent, as [`exponent`] gives them; a
/// magnitude above a thousand is only flagged as such.
fn parse_exponent(x: &Vec<char>) -> (r: Option<(bool, u64, bool)>)
    ensures
        match r {
            Some((neg, v, big)) => exponent(x@) matches Some((n2, mag)) && n2 == neg && (big
                ==> mag > 1000) && (!big ==> mag == v && v <= 1000),
            None => exponent(x@) is None,
        },
{
    let signed = x.len() > 0 && (x[0] == '-' || x[0] == '+');
    let start: usize = if signed {
        1
    } else {
        0
    };
    let ds = sub_chars(x, start, x.len());
    proof {
        if signed {
            assert(ds@ =~= x@.skip(1));
        } else {
            assert(ds@ =~= x@);
        }
    }
    if ds.len() == 0 {
        return None;
    }
    let mut acc: u64 = 0;
    let mut big = false;
    let mut i: usize = 0;
    assert(ds@.take(0) =~= seq![]);
    while i < ds.len()
        invariant
            i <= ds@.len(),
            signed == (x@.len() > 0 && (x@[0] == '-' || x@[0] == '+')),
            signed ==> ds@ == x@.skip(1),
            !signed ==> ds@ == x@,
            ds@.len() > 0,
            all_digits(ds@.take(i as int)),
            !big ==> acc == digits_value(ds@.take(i as int)) && acc <= 1000,
            big ==> digits_value(ds@.take(i as int)) > 1000,
        decreases ds@.len() - i,
    {
        if !is_digit_char(ds[i]) {
            assert(!is_digit(ds@[i as int]));
            return None;
        }
        let dv = digit_of(ds[i]);
        assert(ds@.take(i + 1).drop_last() =~= ds@.take(i as int));
        if !big {
            acc = acc * 10 + dv as u64;
            if acc > 1000 {
                big = true;
            }
        }
        i = i + 1;
        assert(all_digits(ds@.take(i as int)));
    }
    assert(ds@.take(ds@.len() as int) =~= ds@);
    Some((signed && x[0] == '-', acc, big))
}

/// The value of unsigned number text, as [`unsigned_value`] gives it.
pub fn parse_unsigned(t: &Vec<char>) -> (r: Option<Number>)
    ensures
        option_view(r) == unsigned_value(t@),
{
    let n = t.len();
    let mut k: usize = 0;
    while k < n && t[k] != 'e' && t[k] != 'E'
        invariant
            k <= n == t@.len(),
            find_exponent(t@, 0) == find_exponent(t@, k as int),
        decreases n - k,
    {
        k = k + 1;
    }
    let m_text = sub_chars(t, 0, k);
    assert(m_text@ =~= t@.take(k as int));
    let (m, f) = match parse_mantissa(&m_text) {
        Some(p) => p,
        None => return None,
    };
    proof {
        let a = whole_part(m_text@);
        let b = fraction_part(m_text@);
        lemma_digits_value_bound(a + b);
        lemma_pow10_monotonic((a + b).len(), MAX_DIGITS as nat);
        lemma_pow10_monotonic(f as nat, MAX_DIGITS as nat);
        lemma_pow10_38();
    }
    if k == n {
        let d = pow10_u128(f);
        return number_from_parts(m, d);
    }
    let x_text = sub_chars(t, k + 1, n);
    assert(x_text@ =~= t@.skip(k + 1));
    let (neg, v, big) = match parse_exponent(&x_text) {
        Some(p) => p,
        None => return None,
    };
    let ghost mag = exponent(x_text@)->Some_0.1;
    if neg {
        if big || v + f as u64 > MAX_DIGITS as u64 {
            proof {
                lemma_pow10_monotonic(39, (f + mag) as nat);
            }
            return None;
        }
        let d = pow10_u128(f + v as usize);
        proof {
            lemma_pow10_monotonic((f + mag) as nat, MAX_DIGITS as nat);
            assert(scaled(m as nat, f as nat, neg, mag) == (m as nat, d as nat));
        }
        number_from_parts(m, d)
    } else if !big && v as usize <= f {
        let d = pow10_u128(f - v as usize);
        proof {
            lemma_pow10_monotonic((f - mag) as nat, MAX_DIGITS as nat);
            assert(scaled(m as nat, f as nat, neg, mag) == (m as nat, d as nat));
        }
        number_from_parts(m, d)
    } else if m == 0 {
        assert(0 * pow10((mag - f) as nat) == 0);
        assert(scaled(m as nat, f as nat, neg, mag) == (0nat, 1nat));
        number_from_parts(0, 1)
    } else {
        if big || v - f as u64 > MAX_DIGITS as u64 {
            proof {
                let e = (mag - f) as nat;
                lemma_pow10_monotonic(39, e);
                assert(m * pow10(e) >= pow10(e)) by (nonlinear_arith)
                    requires
                        m >= 1,
                ;
            }
            return None;
        }
        let e: usize = v as usize - f;
        let mut acc: u128 = m;
        let mut i: usize = 0;
        proof {
            assert(acc * pow10(e as nat) == m * pow10(e as nat));
            assert(unsigned_value(t@) == from_parts((m * pow10(e as nat)) as nat, 1));
        }
        while i < e
            invariant
                i <= e <= MAX_DIGITS,
                unsigned_value(t@) == from_parts((m * pow10(e as nat)) as nat, 1),
                acc < pow10(MAX_DIGITS as nat),
                acc * pow10((e - i) as nat) == m * pow10(e as nat),
                pow10(38) == 100000000000000000000000000000000000000nat,
            decreases e - i,
        {
            let ghost r = (e - i) as nat;
            assert(pow10(r) == 10 * pow10((r - 1) as nat));
            if acc >= 10000000000000000000000000000000000000u128 {
                proof {
                    lemma_pow10_monotonic(0, (r - 1) as nat);
                    assert(acc * pow10(r) >= 100000000000000000000000000000000000000) by (
                    nonlinear_arith)
                        requires
                            acc >= 10000000000000000000000000000000000000,
                            pow10(r) == 10 * pow10((r - 1) as nat),
                            pow10((r - 1) as nat) >= 1,
                    ;
                }
                return None;
            }
            proof {
                assert(acc * pow10(r) == (acc * 10) * pow10((r - 1) as nat)) by (nonlinear_arith)
                    requires
                        pow10(r) == 10 * pow10((r - 1) as nat),
                ;
            }
            acc = acc * 10;
            i = i + 1;
        }
        assert(i == e);
        assert(pow10((e - i) as nat) == 1);
        assert(acc * pow10((e - i) as nat) == acc) by (nonlinear_arith)
            requires
                pow10((e - i) as nat) == 1,
        ;
        assert(acc == m * pow10(e as nat));
        number_from_parts(acc, 1)
    }
}

/// The value of text that, once trimmed, is signed decimal text.
pub fn parse_text(cs: &Vec<char>) -> (r: Option<Number>)
    ensures
        option_view(r) == signed_value(trimmed(cs@)),
{
    let t = trim_chars(cs);
    if t.len() > 0 && (t[0] == '-' || t[0] == '+') {
        let mut rest: Vec<char> = Vec::new();
        let mut i: usize = 1;
        while i < t.len()
            invariant
                1 <= i <= t@.len(),
                rest@ == t@.subrange(1, i as int),
            decreases t@.len() - i,
        {
            rest.push(t[i]);
            assert(t@.subrange(1, i + 1) =~= t@.subrange(1, i as int).push(t@[i as int]));
            i = i + 1;
        }
        assert(rest@ =~= t@.skip(1));
        let v = parse_unsigned(&rest);
        if t[0] == '-' {
            match v {
                Some(x) => Some(x.negated()),
                None => None,
            }
        } else {
            v
        }
    } else {
        parse_unsigned(&t)
    }
}

impl View for Number {
    type V = Ratio;

    closed spec fn view(&self) -> Ratio {
        Ratio { n: self.num as int, d: self.den as int }
    }
}

impl Number {
    #[verifier::type_invariant]
    closed spec fn well_formed(self) -> bool {
        self.num > i64::MIN && lowest_terms(self@)
    }

    /// The fraction `n / d` in lowest terms, or `ArithmeticOverflow` when its
    /// reduced parts do not fit.
    fn reduced(n: i128, d: i128) -> (r: Result<Number, Error>)
        requires
            n > i128::MIN,
            d > i128::MIN,
            d != 0,
        ensures
            fits(reduce(n as int, d as int)) ==> r is Ok && r->Ok_0@ == reduce(n as int, d as int),
            !fits(reduce(n as int, d as int)) ==> r == Err::<Number, Error>(
                Error::ArithmeticOverflow,
            ),
    {
        let n1: i128 = if d < 0 {
            -n
        } else {
            n
        };
        let d1: u128 = if d < 0 {
            (-d) as u128
        } else {
            d as u128
        };
        let a: u128 = if n1 < 0 {
            (-n1) as u128
        } else {
            n1 as u128
        };
        let g = gcd_u128(a, d1);
        proof {
            lemma_gcd_bounds(a as nat, d1 as nat);
        }
        let qn = a / g;
        let qd = d1 / g;
        assert(qd >= 1) by (nonlinear_arith)
            requires
                0 < g <= d1,
                qd == d1 / g,
        ;
        if qn > i64::MAX as u128 || qd > i64::MAX as u128 {
            return Err(Error::ArithmeticOverflow);
        }
        let num: i64 = if n1 < 0 {
            -(qn as i64)
        } else {
            qn as i64
        };
        proof {
            lemma_reduce_value(n as int, d as int);
        }
        Ok(Number { num, den: qd as i64 })
    }

    /// The integer `n`.
    pub fn from_int(n: i32) -> (r: Number)
        ensures
            r@ == (Ratio { n: n as int, d: 1 }),
    {
        proof {
            let a = abs(n as int);
            assert(gcd(a, 1) == gcd(1, a % 1));
            assert(gcd(1, 0) == 1);
        }
        Number { num: n as i64, den: 1 }
    }

    /// The fraction `n / d` in lowest terms; `None` when `d` is zero or the
    /// reduced fraction does not fit.
    pub fn ratio(n: i64, d: i64) -> (r: Option<Number>)
        ensures
            d == 0 ==> r is None,
            d != 0 ==> option_view(r) == (if fits(reduce(n as int, d as int)) {
                Some(reduce(n as int, d as int))
            } else {
                None
            }),
    {
        if d == 0 {
            return None;
        }
        match Number::reduced(n as i128, d as i128) {
            Ok(x) => Some(x),
            Err(_) => None,
        }
    }

    /// The number with the opposite sign.
    pub fn negated(&self) -> (r: Number)
        ensures
            r@ == (Ratio { n: -self@.n, d: self@.d }),
    {
        proof {
            use_type_invariant(self);
            assert(self.den > 0);
        }
        Number { num: -self.num, den: self.den }
    }

    /// The value of number text such as `2.5`, `-3`, ` 10 ` or `1e3`: white
    /// space around it is ignored, a sign may lead, and an exponent may
    /// follow. At most [`MAX_DIGITS`] digits are read before the exponent;
    /// the value, with the exponent applied, must have a numerator and a
    /// denominator of at most [`MAX_DIGITS`] digits and reduce to a fraction
    /// of 64-bit parts. `inf`, `nan` and other text give `None`.
    pub fn parse(s: &str) -> (r: Option<Number>)
        ensures
            option_view(r) == signed_value(trimmed(s@)),
    {
        let cs = crate::text::chars_of(s);
        parse_text(&cs)
    }

    /// The numerator.
    pub fn numer(&self) -> (r: i64)
        ensures
            r == self@.n,
    {
        self.num
    }

    /// The denominator, always positive: the fraction is in lowest terms.
    pub fn denom(&self) -> (r: i64)
        ensures
            r == self@.d,
            r > 0,
            lowest_terms(self@),
    {
        proof {
            use_type_invariant(self);
            assert(self.den > 0);
        }
        self.den
    }

    /// `self op other`, exactly.
    pub fn arith(op: ArithOp, a: &Number, b: &Number) -> (r: Result<Number, Error>)
        ensures
            result_view(r) == arith(op, a@, b@),
            r is Ok ==> r->Ok_0@.n * raw_result(op, a@, b@).1 == raw_result(op, a@, b@).0
                * r->Ok_0@.d,
    {
        proof {
            use_type_invariant(a);
            use_type_invariant(b);
            assert(a.den > 0 && b.den > 0);
            lemma_product_bound(a.num as int, b.den as int);
            lemma_product_bound(b.num as int, a.den as int);
            lemma_product_bound(a.num as int, b.num as int);
            lemma_product_bound(a.den as int, b.den as int);
            lemma_product_bound(a.den as int, b.num as int);
            assert(a.den * b.den > 0) by (nonlinear_arith)
                requires
                    a.den > 0,
                    b.den > 0,
            ;
            assert(b.num != 0 ==> b.num * a.den != 0 && a.den * b.num != 0) by (nonlinear_arith)
                requires
                    a.den > 0,
            ;
            let (n, d) = raw_result(op, a@, b@);
            if !((op == ArithOp::Div || op == ArithOp::Rem) && b@.n == 0) {
                lemma_reduce_value(n, d);
            }
        }
        let an = a.num as i128;
        let ad = a.den as i128;
        let bn = b.num as i128;
        let bd = b.den as i128;
        let r = match op {
            ArithOp::Add => Number::reduced(an * bd + bn * ad, ad * bd),
            ArithOp::Sub => Number::reduced(an * bd - bn * ad, ad * bd),
            ArithOp::Mul => Number::reduced(an * bn, ad * bd),
            ArithOp::Div => {
                if bn == 0 {
                    return Err(Error::DivisionByZero);
                }
                Number::reduced(an * bd, ad * bn)
            },
            ArithOp::Rem => {
                if bn == 0 {
                    return Err(Error::DivisionByZero);
                }
                let x = an * bd;
                let y = bn * ad;
                let ux: u128 = if x < 0 {
                    (-x) as u128
                } else {
                    x as u128
                };
                let uy: u128 = if y < 0 {
                    (-y) as u128
                } else {
                    y as u128
                };
                let m = (ux % uy) as i128;
                let rem = if x < 0 {
                    -m
                } else {
                    m
                };
                Number::reduced(rem, ad * bd)
            },
        };
        r
    }

    /// `self < other` as numbers.
    pub fn less_than(&self, other: &Number) -> (r: bool)
        ensures
            r == less(self@, other@),
    {
        proof {
            use_type_invariant(self);
            use_type_invariant(other);
            assert(self.den > 0 && other.den > 0);
            lemma_product_bound(self.num as int, other.den as int);
            lemma_product_bound(other.num as int, self.den as int);
        }
        (self.num as i128) * (other.den as i128) < (other.num as i128) * (self.den as i128)
    }

    /// `self == other` as numbers; as numbers are in lowest terms, that is
    /// when their parts are equal.
    pub fn same_value_as(&self, other: &Number) -> (r: bool)
        ensures
            r == same_value(self@, other@),
            r == (self@ == other@),
    {
        proof {
            use_type_invariant(self);
            use_type_invariant(other);
            assert(self.den > 0 && other.den > 0);
            if same_value(self@, other@) {
                lemma_lowest_terms_unique(self@, other@);
            }
            lemma_product_bound(self.num as int, other.den as int);
            lemma_product_bound(other.num as int, self.den as int);
        }
        (self.num as i128) * (other.den as i128) == (other.num as i128) * (self.den as i128)
    }

    /// Whether the number is zero.
    pub fn is_zero(&self) -> (r: bool)
        ensures
            r == (self@.n == 0),
    {
        self.num == 0
    }

    /// The integer part, toward zero, held within `i32`.
    pub fn truncate_to_i32(&self) -> (r: i32)
        ensures
            r == trunc_i32(self@),
    {
        proof {
            use_type_invariant(self);
            assert(self.den > 0);
        }
        let a: u64 = if self.num < 0 {
            (-self.num) as u64
        } else {
            self.num as u64
        };
        let q: u64 = a / (self.den as u64);
        if self.num < 0 {
            if q > 2147483648 {
                i32::MIN
            } else {
                (-(q as i64)) as i32
            }
        } else {
            if q > 2147483647 {
                i32::MAX
            } else {
                q as i32
            }
        }
    }

    /// The text of the number, as [`number_text`] gives it.
    pub fn to_text(&self) -> (r: String)
        ensures
            r@ == number_text(self@),
    {
        proof {
            use_type_invariant(self);
            assert(self.den > 0);
        }
        let mut s = String::new();
        if self.num < 0 {
            push_char(&mut s, '-');
        }
        let a: u64 = if self.num < 0 {
            (-self.num) as u64
        } else {
            self.num as u64
        };
        let d: u64 = self.den as u64;
        let r0: u64 = a % d;
        let ghost fuel0 = FRACTION_DIGITS as nat;
        // Does the long division end?
        let mut r: u128 = r0 as u128;
        let mut i: u64 = 0;
        while r != 0 && i < FRACTION_DIGITS
            invariant
                i <= FRACTION_DIGITS,
                r < d,
                d > 0,
                fuel0 == FRACTION_DIGITS as nat,
                fraction_ends(r0 as nat, d as nat, fuel0) == fraction_ends(
                    r as nat,
                    d as nat,
                    (fuel0 - i) as nat,
                ),
            decreases FRACTION_DIGITS - i,
        {
            assert(fraction_ends(r as nat, d as nat, (fuel0 - i) as nat) == fraction_ends(
                ((r * 10) % (d as int)) as nat,
                d as nat,
                (fuel0 - i - 1) as nat,
            ));
            r = (r * 10) % (d as u128);
            i = i + 1;
        }
        let ends = r == 0;
        assert(ends == fraction_ends(r0 as nat, d as nat, fuel0));
        let limit: u64 = if ends {
            FRACTION_DIGITS
        } else {
            PRINTED_DIGITS
        };
        let ghost fuel0 = limit as nat;
        push_decimal(&mut s, a / d);
        if r0 != 0 {
            push_char(&mut s, '.');
            let ghost before = s@;
            let mut r: u128 = r0 as u128;
            let mut i: u64 = 0;
            while r != 0 && i < limit
                invariant
                    i <= limit,
                    r < d,
                    d > 0,
                    fuel0 == limit as nat,
                    before + fraction_digits(r0 as nat, d as nat, fuel0) == s@
                        + fraction_digits(r as nat, d as nat, (fuel0 - i) as nat),
                decreases limit - i,
            {
                assert((r * 10) / (d as int) < 10) by (nonlinear_arith)
                    requires
                        r < d,
                ;
                let c = crate::text::char_of_digit(((r * 10) / (d as u128)) as u64);
                let ghost rest = fraction_digits(
                    ((r * 10) % (d as int)) as nat,
                    d as nat,
                    (fuel0 - i - 1) as nat,
                );
                let ghost f = (fuel0 - i) as nat;
                assert(f > 0 && r != 0 && d != 0);
                assert(fraction_digits(r as nat, d as nat, f) == seq![
                    digit_char(((r * 10) / (d as int)) as nat),
                ] + fraction_digits(((r * 10) % (d as int)) as nat, d as nat, (f - 1) as nat));
                assert(fraction_digits(r as nat, d as nat, f) == seq![c] + rest);
                let ghost old_s = s@;
                push_char(&mut s, c);
                assert(old_s + (seq![c] + rest) =~= s@ + rest);
                r = (r * 10) % (d as u128);
                i = i + 1;
            }
            assert(fraction_digits(r as nat, d as nat, (fuel0 - i) as nat) =~= seq![]);
            assert(s@ =~= before + fraction_digits(r0 as nat, d as nat, fuel0));
        }
        s
    }
}

} // verus!
