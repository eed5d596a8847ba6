//! Lexical tokens.

use vstd::prelude::*;

use crate::expr::bool_text;
use crate::number::{number_text, Number, Ratio};
use crate::text::push_char;

verus! {

/// A lexical unit of source text.
#[derive(Debug, Clone, PartialEq)]
pub enum Token {
    /// `(` or `)`.
    Paren(char),
    /// A number literal.
    Num(Number),
    /// A string literal, without its quotes.
    Str(String),
    /// Any other word.
    Ident(String),
    /// `true` or `false`.
    Bool(bool),
}

/// The model of a [`Token`].
pub enum TokenV {
    Paren(char),
    Num(Ratio),
    Str(Seq<char>),
    Ident(Seq<char>),
    Bool(bool),
}

impl View for Token {
    type V = TokenV;

    open spec fn view(&self) -> TokenV {
        match self {
            Token::Paren(c) => TokenV::Paren(*c),
            Token::Num(n) => TokenV::Num(n@),
            Token::Str(s) => TokenV::Str(s@),
            Token::Ident(s) => TokenV::Ident(s@),
            Token::Bool(b) => TokenV::Bool(*b),
        }
    }
}

/// The models of a sequence of tokens.
pub open spec fn tokens_view(ts: Seq<Token>) -> Seq<TokenV> {
    ts.map_values(|t: Token| t@)
}

/// The printed text of a token: a string without its quotes.
pub open spec fn token_text(t: TokenV) -> Seq<char> {
    match t {
        TokenV::Paren(c) => seq![c],
        TokenV::Num(r) => number_text(r),
        TokenV::Str(s) => s,
        TokenV::Ident(s) => s,
        TokenV::Bool(b) => bool_text(b),
    }
}

impl Token {
    /// The printed text of the token.
    pub fn to_text(&self) -> (r: String)
        ensures
            r@ == token_text(self@),
    {
        match self {
            Token::Paren(c) => {
                let mut s = String::new();
                push_char(&mut s, *c);
                assert(s@ =~= seq![*c]);
                s
            },
            Token::Num(n) => n.to_text(),
            Token::Str(s) => s.clone(),
            Token::Ident(s) => s.clone(),
            Token::Bool(b) => String::from_str(if *b { "true" } else { "false" }),
        }
    }
}

pub proof fn lemma_tokens_view_push(ts: Seq<Token>, t: Token)
    ensures
        tokens_view(ts.push(t)) == tokens_view(ts).push(t@),
{
    assert(tokens_view(ts.push(t)) =~= tokens_view(ts).push(t@));
}

} // verus!
