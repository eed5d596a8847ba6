//! The expression type, shared by the parser's output and the evaluator's
//! input and output, with its text and the coercions between its variants.

use vstd::prelude::*;

use crate::error::{Error, ErrorV};
use crate::number::{number_text, parse_text, signed_value, Number, Ratio};
use crate::text::{chars_of, push_char, string_of, trim_chars, trimmed};

verus! {

/// The builtin operations that a fresh environment binds.
#[derive(Debug, Clone, Copy, PartialEq, Eq, Structural)]
pub enum Builtin {
    Add,
    Sub,
    Mul,
    Div,
    Rem,
    Concat,
    And,
    Or,
    StrictEq,
    LooseEq,
    Less,
    LessEq,
    Greater,
    GreaterEq,
    If,
    Read,
    Nth,
    Append,
    Exit,
}

/// A user-defined function: parameter names and a body.
#[derive(Debug, PartialEq)]
pub struct Lambda {
    /// Bound to the arguments when the lambda is called.
    pub args: Vec<String>,
    /// Evaluated when the lambda is called.
    pub body: Box<Expr>,
}

/// An expression, and equally a value.
#[derive(Debug, PartialEq)]
pub enum Expr {
    Num(Number),
    Str(String),
    Ident(String),
    Bool(bool),
    List(Vec<Expr>),
    /// A builtin operation.
    Func(Builtin),
    Lambda(Lambda),
}

/// The model of an [`Expr`].
pub enum ExprV {
    Num(Ratio),
    Str(Seq<char>),
    Ident(Seq<char>),
    Bool(bool),
    List(Seq<ExprV>),
    Func(Builtin),
    Lambda(Seq<Seq<char>>, Box<ExprV>),
}

/// The models of a sequence of strings.
pub open spec fn names_view(s: Seq<String>) -> Seq<Seq<char>> {
    s.map_values(|x: String| x@)
}

pub open spec fn expr_view(e: Expr) -> ExprV
    decreases e, 0nat,
{
    match e {
        Expr::Num(n) => ExprV::Num(n@),
        Expr::Str(s) => ExprV::Str(s@),
        Expr::Ident(s) => ExprV::Ident(s@),
        Expr::Bool(b) => ExprV::Bool(b),
        Expr::List(v) => ExprV::List(exprs_view(v@)),
        Expr::Func(f) => ExprV::Func(f),
        Expr::Lambda(l) => ExprV::Lambda(names_view(l.args@), Box::new(expr_view(*l.body))),
    }
}

/// The models of a sequence of expressions.
pub open spec fn exprs_view(s: Seq<Expr>) -> Seq<ExprV>
    decreases s, 1nat,
{
    if s.len() == 0 {
        seq![]
    } else {
        exprs_view(s.subrange(0, s.len() - 1)).push(expr_view(s[s.len() - 1]))
    }
}

impl View for Expr {
    type V = ExprV;

    open spec fn view(&self) -> ExprV {
        expr_view(*self)
    }
}

pub proof fn lemma_exprs_view_push(s: Seq<Expr>, e: Expr)
    ensures
        exprs_view(s.push(e)) == exprs_view(s).push(e@),
{
    assert(s.push(e).subrange(0, s.len() as int) =~= s);
}

pub proof fn lemma_exprs_view_len(s: Seq<Expr>)
    ensures
        exprs_view(s).len() == s.len(),
        forall|i: int| 0 <= i < s.len() ==> #[trigger] exprs_view(s)[i] == s[i]@,
    decreases s.len(),
{
    if s.len() > 0 {
        lemma_exprs_view_len(s.subrange(0, s.len() - 1));
    }
}

/// Items joined by single spaces.
pub open spec fn spaced(ss: Seq<Seq<char>>) -> Seq<char>
    decreases ss.len(),
{
    if ss.len() == 0 {
        seq![]
    } else if ss.len() == 1 {
        ss[0]
    } else {
        spaced(ss.drop_last()) + seq![' '] + ss.last()
    }
}

/// Items joined by single spaces, in parentheses: `(a b c)`.
pub open spec fn paren_join(ss: Seq<Seq<char>>) -> Seq<char> {
    seq!['('] + spaced(ss) + seq![')']
}

/// The printed text of a value.
pub open spec fn expr_text(e: ExprV) -> Seq<char>
    decreases e, 0nat,
{
    match e {
        ExprV::Num(r) => number_text(r),
        ExprV::Str(s) => seq!['"'] + s + seq!['"'],
        ExprV::Ident(s) => s,
        ExprV::Bool(b) => bool_text(b),
        ExprV::List(items) => seq!['('] + items_text(items) + seq![')'],
        ExprV::Func(_) => "prelude function"@,
        ExprV::Lambda(params, body) => seq!['\u{3bb}', ' '] + paren_join(params) + " -> "@
            + expr_text(*body),
    }
}

/// The texts of values joined by single spaces.
pub open spec fn items_text(items: Seq<ExprV>) -> Seq<char>
    decreases items, 1nat,
{
    if items.len() == 0 {
        seq![]
    } else if items.len() == 1 {
        expr_text(items[0])
    } else {
        items_text(items.subrange(0, items.len() - 1)) + seq![' '] + expr_text(
            items[items.len() - 1],
        )
    }
}

pub open spec fn bool_text(b: bool) -> Seq<char> {
    if b {
        "true"@
    } else {
        "false"@
    }
}

/// A value as a number: the coercion that arithmetic and comparison use.
pub open spec fn to_number(v: ExprV) -> Result<Ratio, ErrorV> {
    match v {
        ExprV::Num(r) => Ok(r),
        ExprV::Bool(b) => Ok(Ratio { n: if b { 1 } else { 0 }, d: 1 }),
        ExprV::Str(s) => match signed_value(trimmed(s)) {
            Some(r) => Ok(r),
            None => Err(ErrorV::UnexpectedType),
        },
        _ => Err(ErrorV::UnexpectedType),
    }
}

/// A value as text: the coercion that `concat` uses.
pub open spec fn to_text(v: ExprV) -> Result<Seq<char>, ErrorV> {
    match v {
        ExprV::Str(s) => Ok(s),
        ExprV::Bool(b) => Ok(bool_text(b)),
        ExprV::Num(r) => Ok(number_text(r)),
        _ => Err(ErrorV::UnexpectedType),
    }
}

/// A value as a truth value: the coercion that `and`, `or` and `if` use.
pub open spec fn to_bool(v: ExprV) -> Result<bool, ErrorV> {
    match v {
        ExprV::Bool(b) => Ok(b),
        ExprV::Num(r) => Ok(r.n != 0),
        ExprV::Str(s) => {
            let t = trimmed(s);
            if t == "true"@ || t == "1"@ {
                Ok(true)
            } else if t == "false"@ || t == "0"@ || t.len() == 0 {
                Ok(false)
            } else {
                Err(ErrorV::UnexpectedType)
            }
        },
        _ => Err(ErrorV::UnexpectedType),
    }
}

/// Appends `xs` joined by single spaces.
fn push_spaced(out: &mut String, xs: &[&str])
    ensures
        final(out)@ == old(out)@ + spaced(xs@.map_values(|x: &str| x@)),
{
    let ghost ss = xs@.map_values(|x: &str| x@);
    let mut i: usize = 0;
    let ghost start = out@;
    while i < xs.len()
        invariant
            i <= xs@.len(),
            ss == xs@.map_values(|x: &str| x@),
            out@ == start + spaced(ss.take(i as int)),
        decreases xs@.len() - i,
    {
        if i > 0 {
            out.append(" ");
            proof {
                reveal_strlit(" ");
            }
        }
        out.append(xs[i]);
        proof {
            let t = ss.take(i + 1);
            assert(t.drop_last() =~= ss.take(i as int));
            if i == 0 {
                assert(out@ =~= start + spaced(t));
            } else {
                assert(out@ =~= start + spaced(t));
            }
        }
        i = i + 1;
    }
    assert(ss.take(xs@.len() as int) =~= ss);
}

/// The strings joined by single spaces, in parentheses: `(foo bar)`.
pub fn stringify(xs: &[&str]) -> (r: String)
    ensures
        r@ == paren_join(xs@.map_values(|x: &str| x@)),
{
    let mut out = String::new();
    push_char(&mut out, '(');
    push_spaced(&mut out, xs);
    push_char(&mut out, ')');
    assert(out@ =~= paren_join(xs@.map_values(|x: &str| x@)));
    out
}

/// The texts of values joined by single spaces, in parentheses: the text
/// that a list of them prints as.
pub fn stringify_exprs(xs: &[Expr]) -> (r: String)
    ensures
        r@ == seq!['('] + items_text(exprs_view(xs@)) + seq![')'],
        r@ == expr_text(ExprV::List(exprs_view(xs@))),
{
    let ghost items = exprs_view(xs@);
    proof {
        lemma_exprs_view_len(xs@);
    }
    let mut out = String::new();
    push_char(&mut out, '(');
    let mut i: usize = 0;
    assert(items.take(0) =~= seq![]);
    while i < xs.len()
        invariant
            i <= xs@.len(),
            items == exprs_view(xs@),
            items.len() == xs@.len(),
            forall|k: int| 0 <= k < xs@.len() ==> #[trigger] items[k] == xs@[k]@,
            out@ == seq!['('] + items_text(items.take(i as int)),
        decreases xs@.len() - i,
    {
        if i > 0 {
            push_char(&mut out, ' ');
        }
        xs[i].write_text(&mut out);
        proof {
            let t = items.take(i + 1);
            assert(t.subrange(0, t.len() - 1) =~= items.take(i as int));
            assert(out@ =~= seq!['('] + items_text(t));
        }
        i = i + 1;
    }
    push_char(&mut out, ')');
    assert(items.take(xs@.len() as int) =~= items);
    out
}

/// Appends `names` joined by single spaces, in parentheses.
fn push_names(out: &mut String, names: &Vec<String>)
    ensures
        final(out)@ == old(out)@ + paren_join(names_view(names@)),
{
    let ghost ss = names_view(names@);
    let ghost start = out@;
    push_char(out, '(');
    let mut i: usize = 0;
    while i < names.len()
        invariant
            i <= names@.len(),
            ss == names_view(names@),
            out@ == start + seq!['('] + spaced(ss.take(i as int)),
        decreases names@.len() - i,
    {
        if i > 0 {
            push_char(out, ' ');
        }
        out.append(names[i].as_str());
        proof {
            let t = ss.take(i + 1);
            assert(t.drop_last() =~= ss.take(i as int));
            assert(out@ =~= start + seq!['('] + spaced(t));
        }
        i = i + 1;
    }
    push_char(out, ')');
    assert(ss.take(names@.len() as int) =~= ss);
    assert(out@ =~= start + paren_join(ss));
}

impl Expr {
    /// A copy of the value, equal to it in every part.
    pub fn copy(&self) -> (r: Expr)
        ensures
            r@ == self@,
        decreases self,
    {
        match self {
            Expr::Num(n) => Expr::Num(*n),
            Expr::Str(s) => Expr::Str(s.clone()),
            Expr::Ident(s) => Expr::Ident(s.clone()),
            Expr::Bool(b) => Expr::Bool(*b),
            Expr::Func(f) => Expr::Func(*f),
            Expr::List(v) => {
                let mut out: Vec<Expr> = Vec::new();
                let mut i: usize = 0;
                while i < v.len()
                    invariant
                        i <= v@.len(),
                        exprs_view(out@) == exprs_view(v@.take(i as int)),
                        *self == Expr::List(*v),
                    decreases v@.len() - i,
                {
                    proof {
                        vstd::std_specs::vec::axiom_vec_index_decreases(*v, i as int);
                        assert(decreases_to!(*self => (*self)->List_0));
                        assert(decreases_to!(*self => v[i as int]));
                    }
                    let x = v[i].copy();
                    proof {
                        lemma_exprs_view_push(out@, x);
                        assert(v@.take(i + 1) =~= v@.take(i as int).push(v@[i as int]));
                        lemma_exprs_view_push(v@.take(i as int), v@[i as int]);
                    }
                    out.push(x);
                    i = i + 1;
                }
                assert(v@.take(v@.len() as int) =~= v@);
                Expr::List(out)
            },
            Expr::Lambda(l) => {
                let args = copy_names(&l.args);
                let body = l.body.copy();
                Expr::Lambda(Lambda { args, body: Box::new(body) })
            },
        }
    }

    /// Appends the printed text of the value.
    pub fn write_text(&self, out: &mut String)
        ensures
            final(out)@ == old(out)@ + expr_text(self@),
        decreases self,
    {
        match self {
            Expr::Num(n) => {
                let t = n.to_text();
                out.append(t.as_str());
            },
            Expr::Str(s) => {
                push_char(out, '"');
                out.append(s.as_str());
                push_char(out, '"');
                assert(final(out)@ =~= old(out)@ + expr_text(self@));
            },
            Expr::Ident(s) => {
                out.append(s.as_str());
            },
            Expr::Bool(b) => {
                if *b {
                    out.append("true");
                } else {
                    out.append("false");
                }
            },
            Expr::Func(_) => {
                out.append("prelude function");
            },
            Expr::List(v) => {
                let ghost items = exprs_view(v@);
                proof {
                    lemma_exprs_view_len(v@);
                }
                let ghost start = out@;
                push_char(out, '(');
                let mut i: usize = 0;
                while i < v.len()
                    invariant
                        i <= v@.len(),
                        items == exprs_view(v@),
                        *self == Expr::List(*v),
                        items.len() == v@.len(),
                        forall|k: int| 0 <= k < v@.len() ==> #[trigger] items[k] == v@[k]@,
                        out@ == start + seq!['('] + items_text(items.take(i as int)),
                    decreases v@.len() - i,
                {
                    if i > 0 {
                        push_char(out, ' ');
                    }
                    proof {
                        vstd::std_specs::vec::axiom_vec_index_decreases(*v, i as int);
                        assert(decreases_to!(*self => (*self)->List_0));
                        assert(decreases_to!(*self => v[i as int]));
                    }
                    v[i].write_text(out);
                    proof {
                        let t = items.take(i + 1);
                        assert(t.subrange(0, t.len() - 1) =~= items.take(i as int));
                        assert(out@ =~= start + seq!['('] + items_text(t));
                    }
                    i = i + 1;
                }
                push_char(out, ')');
                assert(items.take(v@.len() as int) =~= items);
                assert(final(out)@ =~= old(out)@ + expr_text(self@));
            },
            Expr::Lambda(l) => {
                let ghost start = out@;
                push_char(out, '\u{3bb}');
                push_char(out, ' ');
                push_names(out, &l.args);
                out.append(" -> ");
                l.body.write_text(out);
                assert(final(out)@ =~= start + expr_text(self@));
            },
        }
    }

    /// The printed text of the value.
    pub fn to_text(&self) -> (r: String)
        ensures
            r@ == expr_text(self@),
    {
        let mut s = String::new();
        self.write_text(&mut s);
        assert(s@ =~= expr_text(self@));
        s
    }

    /// The value as a number, by the coercion rules.
    pub fn as_number(&self) -> (r: Result<Number, Error>)
        ensures
            match r {
                Ok(n) => to_number(self@) == Ok::<Ratio, ErrorV>(n@),
                Err(e) => to_number(self@) == Err::<Ratio, ErrorV>(e@),
            },
    {
        match self {
            Expr::Num(n) => Ok(*n),
            Expr::Bool(b) => Ok(Number::from_int(if *b { 1 } else { 0 })),
            Expr::Str(s) => {
                let cs = chars_of(s.as_str());
                match parse_text(&cs) {
                    Some(n) => Ok(n),
                    None => Err(Error::UnexpectedType),
                }
            },
            _ => Err(Error::UnexpectedType),
        }
    }

    /// The value as text, by the coercion rules.
    pub fn as_text(&self) -> (r: Result<String, Error>)
        ensures
            match r {
                Ok(s) => to_text(self@) == Ok::<Seq<char>, ErrorV>(s@),
                Err(e) => to_text(self@) == Err::<Seq<char>, ErrorV>(e@),
            },
    {
        match self {
            Expr::Str(s) => Ok(s.clone()),
            Expr::Bool(b) => Ok(String::from_str(if *b { "true" } else { "false" })),
            Expr::Num(n) => Ok(n.to_text()),
            _ => Err(Error::UnexpectedType),
        }
    }

    /// The value as a truth value, by the coercion rules.
    pub fn as_bool(&self) -> (r: Result<bool, Error>)
        ensures
            match r {
                Ok(b) => to_bool(self@) == Ok::<bool, ErrorV>(b),
                Err(e) => to_bool(self@) == Err::<bool, ErrorV>(e@),
            },
    {
        match self {
            Expr::Bool(b) => Ok(*b),
            Expr::Num(n) => Ok(!n.is_zero()),
            Expr::Str(s) => {
                let cs = chars_of(s.as_str());
                let tv = trim_chars(&cs);
                let t = string_of(&tv);
                if t.eq(&String::from_str("true")) || t.eq(&String::from_str("1")) {
                    Ok(true)
                } else if t.eq(&String::from_str("false")) || t.eq(&String::from_str("0"))
                    || tv.len() == 0 {
                    Ok(false)
                } else {
                    Err(Error::UnexpectedType)
                }
            },
            _ => Err(Error::UnexpectedType),
        }
    }
}

/// Whether two values are equal in kind and in value.
pub fn same(a: &Expr, b: &Expr) -> (r: bool)
    ensures
        r == (a@ == b@),
    decreases a,
{
    match (a, b) {
        (Expr::Num(x), Expr::Num(y)) => x.numer() == y.numer() && x.denom() == y.denom(),
        (Expr::Str(x), Expr::Str(y)) => x.eq(y),
        (Expr::Ident(x), Expr::Ident(y)) => x.eq(y),
        (Expr::Bool(x), Expr::Bool(y)) => *x == *y,
        (Expr::Func(f), Expr::Func(g)) => *f == *g,
        (Expr::List(xs), Expr::List(ys)) => {
            proof {
                lemma_exprs_view_len(xs@);
                lemma_exprs_view_len(ys@);
            }
            if xs.len() != ys.len() {
                return false;
            }
            let mut i: usize = 0;
            while i < xs.len()
                invariant
                    i <= xs@.len() == ys@.len(),
                    *a == Expr::List(*xs),
                    *b == Expr::List(*ys),
                    exprs_view(xs@).len() == xs@.len(),
                    exprs_view(ys@).len() == ys@.len(),
                    forall|k: int| 0 <= k < xs@.len() ==> #[trigger] exprs_view(xs@)[k] == xs@[k]@,
                    forall|k: int| 0 <= k < ys@.len() ==> #[trigger] exprs_view(ys@)[k] == ys@[k]@,
                    forall|k: int| 0 <= k < i ==> xs@[k]@ == ys@[k]@,
                decreases xs@.len() - i,
            {
                proof {
                    vstd::std_specs::vec::axiom_vec_index_decreases(*xs, i as int);
                    assert(decreases_to!(*a => (*a)->List_0));
                    assert(decreases_to!(*a => xs[i as int]));
                }
                if !same(&xs[i], &ys[i]) {
                    assert(exprs_view(xs@)[i as int] != exprs_view(ys@)[i as int]);
                    return false;
                }
                i = i + 1;
            }
            assert(exprs_view(xs@) =~= exprs_view(ys@));
            true
        },
        (Expr::Lambda(l), Expr::Lambda(m)) => {
            if l.args.len() != m.args.len() {
                assert(names_view(l.args@).len() != names_view(m.args@).len());
                return false;
            }
            let mut i: usize = 0;
            while i < l.args.len()
                invariant
                    i <= l.args@.len() == m.args@.len(),
                    *a == Expr::Lambda(*l),
                    *b == Expr::Lambda(*m),
                    forall|k: int| 0 <= k < i ==> l.args@[k]@ == m.args@[k]@,
                decreases l.args@.len() - i,
            {
                if !l.args[i].eq(&m.args[i]) {
                    assert(names_view(l.args@)[i as int] != names_view(m.args@)[i as int]);
                    return false;
                }
                i = i + 1;
            }
            assert(names_view(l.args@) =~= names_view(m.args@));
            same(&l.body, &m.body)
        },
        _ => false,
    }
}

/// A copy of a list of names.
pub fn copy_names(names: &Vec<String>) -> (r: Vec<String>)
    ensures
        names_view(r@) == names_view(names@),
        r@.len() == names@.len(),
{
    let mut out: Vec<String> = Vec::new();
    let mut i: usize = 0;
    while i < names.len()
        invariant
            i <= names@.len(),
            out@.len() == i,
            forall|k: int| 0 <= k < i ==> #[trigger] out@[k]@ == names@[k]@,
        decreases names@.len() - i,
    {
        out.push(names[i].clone());
        i = i + 1;
    }
    assert(names_view(out@) =~= names_view(names@));
    out
}

} // verus!

verus! {

/// The model of an evaluation or parse result.
pub open spec fn expr_result(r: Result<Expr, Error>) -> Result<ExprV, ErrorV> {
    match r {
        Ok(e) => Ok(e@),
        Err(x) => Err(x@),
    }
}

} // verus!
