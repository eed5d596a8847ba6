//! The parser: a token sequence to one expression tree.

use vstd::prelude::*;

use crate::error::{Error, ErrorV};
use crate::expr::{expr_result, exprs_view, lemma_exprs_view_push, Expr, ExprV};
use crate::token::{tokens_view, Token, TokenV};

verus! {

/// The expression that starts at position `i`, and the position after it.
///
/// An opening parenthesis starts a list that runs to its matching closing
/// parenthesis; a closing one with no list open is an error, and so is the
/// end of the tokens before an expression or before a list is closed. Any
/// other token is an atom.
pub open spec fn parse_expr(toks: Seq<TokenV>, i: int) -> (Result<ExprV, ErrorV>, int)
    decreases toks.len() - i, 0nat,
{
    if i < 0 || i >= toks.len() {
        (Err(ErrorV::UnexpectedEndOfTokenStream), i)
    } else {
        match toks[i] {
            TokenV::Paren(c) => {
                if c == '(' {
                    let (r, j) = parse_items(toks, i + 1);
                    match r {
                        Ok(items) => (Ok(ExprV::List(items)), j),
                        Err(e) => (Err(e), j),
                    }
                } else if c == ')' {
                    (Err(ErrorV::UnexpectedClosingParenthesis), i + 1)
                } else {
                    (Err(ErrorV::UnexpectedType), i + 1)
                }
            },
            TokenV::Num(r) => (Ok(ExprV::Num(r)), i + 1),
            TokenV::Str(s) => (Ok(ExprV::Str(s)), i + 1),
            TokenV::Ident(s) => (Ok(ExprV::Ident(s)), i + 1),
            TokenV::Bool(b) => (Ok(ExprV::Bool(b)), i + 1),
        }
    }
}

/// The items of a list whose first item is at position `i`, up to and
/// including its closing parenthesis, and the position after that.
pub open spec fn parse_items(toks: Seq<TokenV>, i: int) -> (Result<Seq<ExprV>, ErrorV>, int)
    decreases toks.len() - i, 1nat,
{
    if i < 0 || i >= toks.len() {
        (Err(ErrorV::MissingClosingParenthesis), i)
    } else if toks[i] == TokenV::Paren(')') {
        (Ok(seq![]), i + 1)
    } else {
        let (r, j) = parse_expr(toks, i);
        match r {
            Err(e) => (Err(e), j),
            Ok(e) => {
                if j <= i || j > toks.len() {
                    (Err(ErrorV::MissingClosingParenthesis), j)
                } else {
                    let (rest, k) = parse_items(toks, j);
                    match rest {
                        Ok(es) => (Ok(seq![e] + es), k),
                        Err(x) => (Err(x), k),
                    }
                }
            },
        }
    }
}

/// `acc` in front of the items of `r`, if there are any.
pub open spec fn after(acc: Seq<ExprV>, r: (Result<Seq<ExprV>, ErrorV>, int)) -> (
    Result<Seq<ExprV>, ErrorV>,
    int,
) {
    match r.0 {
        Ok(es) => (Ok(acc + es), r.1),
        Err(x) => (Err(x), r.1),
    }
}

/// The expression that a token sequence starts with.
pub open spec fn parse_tokens(toks: Seq<TokenV>) -> Result<ExprV, ErrorV> {
    parse_expr(toks, 0).0
}

fn atom_of(t: &Token) -> (r: Expr)
    requires
        !(t is Paren),
    ensures
        parse_expr(seq![t@], 0) == (Ok::<ExprV, ErrorV>(r@), 1int),
{
    match t {
        Token::Num(n) => Expr::Num(*n),
        Token::Str(s) => Expr::Str(s.clone()),
        Token::Ident(s) => Expr::Ident(s.clone()),
        Token::Bool(b) => Expr::Bool(*b),
        Token::Paren(_) => Expr::Bool(false),
    }
}

fn parse_at(toks: &Vec<Token>, pos: usize) -> (r: (Result<Expr, Error>, usize))
    requires
        pos <= toks@.len(),
    ensures
        (expr_result(r.0), r.1 as int) == parse_expr(tokens_view(toks@), pos as int),
        r.1 <= toks@.len(),
        r.0 is Ok ==> r.1 > pos,
    decreases toks@.len() - pos, 0nat,
{
    let ghost tv = tokens_view(toks@);
    if pos >= toks.len() {
        return (Err(Error::UnexpectedEndOfTokenStream), pos);
    }
    assert(tv[pos as int] == toks@[pos as int]@);
    match &toks[pos] {
        Token::Paren(c) => {
            if *c == '(' {
                let (r, j) = parse_list_at(toks, pos + 1);
                match r {
                    Ok(items) => (Ok(Expr::List(items)), j),
                    Err(e) => (Err(e), j),
                }
            } else if *c == ')' {
                (Err(Error::UnexpectedClosingParenthesis), pos + 1)
            } else {
                (Err(Error::UnexpectedType), pos + 1)
            }
        },
        t => {
            let e = atom_of(t);
            (Ok(e), pos + 1)
        },
    }
}

fn parse_list_at(toks: &Vec<Token>, start: usize) -> (r: (Result<Vec<Expr>, Error>, usize))
    requires
        start <= toks@.len(),
    ensures
        (
            match r.0 {
                Ok(v) => Ok::<Seq<ExprV>, ErrorV>(exprs_view(v@)),
                Err(x) => Err::<Seq<ExprV>, ErrorV>(x@),
            },
            r.1 as int,
        ) == parse_items(tokens_view(toks@), start as int),
        r.1 <= toks@.len(),
        r.0 is Ok ==> r.1 > start,
    decreases toks@.len() - start, 1nat,
{
    let ghost tv = tokens_view(toks@);
    let mut items: Vec<Expr> = Vec::new();
    let mut pos = start;
    assert(after(seq![], parse_items(tv, start as int)) == parse_items(tv, start as int)) by {
        if let Ok(es) = parse_items(tv, start as int).0 {
            assert(seq![] + es =~= es);
        }
    }
    while pos < toks.len()
        invariant
            start <= pos <= toks@.len(),
            tv == tokens_view(toks@),
            parse_items(tv, start as int) == after(exprs_view(items@), parse_items(tv, pos as int)),
        decreases toks@.len() - pos,
    {
        assert(tv[pos as int] == toks@[pos as int]@);
        if let Token::Paren(c) = &toks[pos] {
            if *c == ')' {
                assert(exprs_view(items@) + seq![] =~= exprs_view(items@));
                return (Ok(items), pos + 1);
            }
        }
        let (r, j) = parse_at(toks, pos);
        match r {
            Ok(e) => {
                proof {
                    let rest = parse_items(tv, j as int);
                    if let Ok(es) = rest.0 {
                        assert(exprs_view(items@) + (seq![e@] + es) =~= exprs_view(items@).push(
                            e@,
                        ) + es);
                    }
                    lemma_exprs_view_push(items@, e);
                }
                items.push(e);
                pos = j;
            },
            Err(x) => {
                return (Err(x), j);
            },
        }
    }
    (Err(Error::MissingClosingParenthesis), pos)
}

/// The expression that `tokens` starts with; tokens after it are ignored.
pub fn parse(tokens: Vec<Token>) -> (r: Result<Expr, Error>)
    ensures
        expr_result(r) == parse_tokens(tokens_view(tokens@)),
{
    let (r, _) = parse_at(&tokens, 0);
    r
}

} // verus!
