//! The tokenizer: source text to a flat sequence of tokens.

use vstd::prelude::*;

use crate::number::{decimal_value, find_char, parse_decimal};
use crate::text::{chars_of, is_digit, is_digit_char, is_space, is_space_char, push_char};
use crate::token::{lemma_tokens_view_push, tokens_view, Token, TokenV};

verus! {

/// The end of the run of digits and points that starts at `i`.
pub open spec fn number_end(s: Seq<char>, i: int) -> int
    decreases s.len() - i,
{
    if i < 0 || i >= s.len() {
        s.len() as int
    } else if is_digit(s[i]) || s[i] == '.' {
        number_end(s, i + 1)
    } else {
        i
    }
}

/// Characters that end a word.
pub open spec fn is_delimiter(c: char) -> bool {
    is_space(c) || c == '(' || c == ')'
}

/// The end of the word that starts at `i`.
pub open spec fn word_end(s: Seq<char>, i: int) -> int
    decreases s.len() - i,
{
    if i < 0 || i >= s.len() {
        s.len() as int
    } else if is_delimiter(s[i]) {
        i
    } else {
        word_end(s, i + 1)
    }
}

/// The token for a word: a boolean literal or an identifier.
pub open spec fn word_token(w: Seq<char>) -> TokenV {
    if w == "true"@ {
        TokenV::Bool(true)
    } else if w == "false"@ {
        TokenV::Bool(false)
    } else {
        TokenV::Ident(w)
    }
}

/// `t` in front of the tokens of `rest`, if there are any.
pub open spec fn prepend(t: TokenV, rest: Option<Seq<TokenV>>) -> Option<Seq<TokenV>> {
    match rest {
        Some(ts) => Some(seq![t] + ts),
        None => None,
    }
}

/// The tokens of `s` from position `i` on; `None` when a number literal
/// there cannot be read.
///
/// A parenthesis is a token of its own. A digit starts a number that runs
/// over digits and points. A quote starts a string that runs to the next
/// quote, or to the end of the text. White space separates tokens. Any
/// other character starts a word that runs to white space or a
/// parenthesis; `true` and `false` are booleans, other words identifiers.
pub open spec fn lex_from(s: Seq<char>, i: int) -> Option<Seq<TokenV>>
    decreases s.len() - i,
{
    if i < 0 || i >= s.len() {
        Some(seq![])
    } else {
        let c = s[i];
        if c == '(' || c == ')' {
            prepend(TokenV::Paren(c), lex_from(s, i + 1))
        } else if is_digit(c) {
            let j = number_end(s, i);
            proof {
                lemma_number_end(s, i);
            }
            match decimal_value(s.subrange(i, j)) {
                Some(v) => prepend(TokenV::Num(v), lex_from(s, j)),
                None => None,
            }
        } else if c == '"' {
            let j = find_char(s, '"', i + 1);
            proof {
                lemma_find_char(s, '"', i + 1);
            }
            let k = if j < s.len() {
                j + 1
            } else {
                j
            };
            prepend(TokenV::Str(s.subrange(i + 1, j)), lex_from(s, k))
        } else if is_space(c) {
            lex_from(s, i + 1)
        } else {
            let j = word_end(s, i);
            proof {
                lemma_word_end(s, i);
            }
            prepend(word_token(s.subrange(i, j)), lex_from(s, j))
        }
    }
}

/// The tokens of source text, or `None` when a number literal in it cannot
/// be read.
pub open spec fn lex(s: Seq<char>) -> Option<Seq<TokenV>> {
    lex_from(s, 0)
}

pub proof fn lemma_number_end(s: Seq<char>, i: int)
    requires
        0 <= i < s.len(),
        is_digit(s[i]) || s[i] == '.',
    ensures
        i < number_end(s, i) <= s.len(),
        forall|k: int| i <= k < number_end(s, i) ==> is_digit(#[trigger] s[k]) || s[k] == '.',
    decreases s.len() - i,
{
    assert(number_end(s, i) == number_end(s, i + 1));
    if i + 1 < s.len() && (is_digit(s[i + 1]) || s[i + 1] == '.') {
        lemma_number_end(s, i + 1);
    } else {
        assert(number_end(s, i + 1) == i + 1);
    }
}

pub proof fn lemma_word_end(s: Seq<char>, i: int)
    requires
        0 <= i <= s.len(),
    ensures
        i <= word_end(s, i) <= s.len(),
        i < s.len() && !is_delimiter(s[i]) ==> i < word_end(s, i),
    decreases s.len() - i,
{
    if i < s.len() && !is_delimiter(s[i]) {
        lemma_word_end(s, i + 1);
    }
}

pub proof fn lemma_find_char(s: Seq<char>, c: char, i: int)
    requires
        0 <= i <= s.len(),
    ensures
        i <= find_char(s, c, i) <= s.len(),
    decreases s.len() - i,
{
    if i < s.len() && s[i] != c {
        lemma_find_char(s, c, i + 1);
    }
}

/// `p` in front of the tokens of `rest`, if there are any.
pub open spec fn prefixed(p: Seq<TokenV>, rest: Option<Seq<TokenV>>) -> Option<Seq<TokenV>> {
    match rest {
        Some(ts) => Some(p + ts),
        None => None,
    }
}

proof fn lemma_prefixed_step(p: Seq<TokenV>, t: TokenV, rest: Option<Seq<TokenV>>)
    ensures
        prefixed(p, prepend(t, rest)) == prefixed(p.push(t), rest),
{
    if let Some(ts) = rest {
        assert(p + (seq![t] + ts) =~= p.push(t) + ts);
    }
}

/// The token for a word.
fn word_to_token(w: String) -> (r: Token)
    ensures
        r@ == word_token(w@),
{
    if w.eq(&String::from_str("true")) {
        Token::Bool(true)
    } else if w.eq(&String::from_str("false")) {
        Token::Bool(false)
    } else {
        Token::Ident(w)
    }
}

fn lex_chars(cs: &Vec<char>) -> (r: Option<Vec<Token>>)
    ensures
        match r {
            Some(ts) => lex(cs@) == Some(tokens_view(ts@)),
            None => lex(cs@) is None,
        },
{
    let ghost s = cs@;
    let n = cs.len();
    let mut toks: Vec<Token> = Vec::new();
    let mut i: usize = 0;
    assert(tokens_view(toks@) =~= seq![]);
    assert(prefixed(seq![], lex_from(s, 0)) == lex_from(s, 0)) by {
        if let Some(ts) = lex_from(s, 0) {
            assert(seq![] + ts =~= ts);
        }
    }
    while i < n
        invariant
            i <= n == s.len(),
            s == cs@,
            lex(s) == prefixed(tokens_view(toks@), lex_from(s, i as int)),
        decreases n - i,
    {
        let c = cs[i];
        if c == '(' || c == ')' {
            let t = Token::Paren(c);
            proof {
                lemma_prefixed_step(tokens_view(toks@), t@, lex_from(s, i + 1));
                lemma_tokens_view_push(toks@, t);
            }
            toks.push(t);
            i = i + 1;
        } else if is_digit_char(c) {
            proof {
                lemma_number_end(s, i as int);
            }
            let mut run: Vec<char> = Vec::new();
            let mut j: usize = i;
            while j < n && (is_digit_char(cs[j]) || cs[j] == '.')
                invariant
                    i <= j <= n == s.len(),
                    s == cs@,
                    run@ == s.subrange(i as int, j as int),
                    number_end(s, i as int) == number_end(s, j as int),
                decreases n - j,
            {
                run.push(cs[j]);
                assert(s.subrange(i as int, j + 1) =~= s.subrange(i as int, j as int).push(
                    s[j as int],
                ));
                j = j + 1;
            }
            match parse_decimal(&run) {
                Some(v) => {
                    let t = Token::Num(v);
                    proof {
                        lemma_prefixed_step(tokens_view(toks@), t@, lex_from(s, j as int));
                        lemma_tokens_view_push(toks@, t);
                    }
                    toks.push(t);
                    i = j;
                },
                None => {
                    return None;
                },
            }
        } else if c == '"' {
            let mut w = String::new();
            let mut j: usize = i + 1;
            while j < n && cs[j] != '"'
                invariant
                    i < j <= n == s.len(),
                    s == cs@,
                    w@ == s.subrange(i + 1, j as int),
                    find_char(s, '"', i + 1) == find_char(s, '"', j as int),
                decreases n - j,
            {
                push_char(&mut w, cs[j]);
                assert(s.subrange(i + 1, j + 1) =~= s.subrange(i + 1, j as int).push(s[j as int]));
                j = j + 1;
            }
            let t = Token::Str(w);
            proof {
                lemma_prefixed_step(
                    tokens_view(toks@),
                    t@,
                    lex_from(s, if j < n { j + 1 } else { j as int }),
                );
                lemma_tokens_view_push(toks@, t);
            }
            toks.push(t);
            i = if j < n {
                j + 1
            } else {
                n
            };
        } else if is_space_char(c) {
            i = i + 1;
        } else {
            let mut w = String::new();
            let mut j: usize = i;
            while j < n && !is_space_char(cs[j]) && cs[j] != '(' && cs[j] != ')'
                invariant
                    i <= j <= n == s.len(),
                    s == cs@,
                    w@ == s.subrange(i as int, j as int),
                    word_end(s, i as int) == word_end(s, j as int),
                decreases n - j,
            {
                push_char(&mut w, cs[j]);
                assert(s.subrange(i as int, j + 1) =~= s.subrange(i as int, j as int).push(
                    s[j as int],
                ));
                j = j + 1;
            }
            let t = word_to_token(w);
            proof {
                lemma_prefixed_step(tokens_view(toks@), t@, lex_from(s, j as int));
                lemma_tokens_view_push(toks@, t);
            }
            toks.push(t);
            i = j;
        }
    }
    assert(tokens_view(toks@) + seq![] =~= tokens_view(toks@));
    Some(toks)
}

/// The tokens of `input`. Every number literal in it must be readable:
/// digits with at most one point, at most [`crate::number::MAX_DIGITS`]
/// digits in all, and a value that reduces to a fraction of 64-bit parts
/// (`0.1234567890123456789` is not, its denominator being too large). See
/// [`try_tokenize`] for text that is not known to be readable.
pub fn tokenize(input: &str) -> (r: Vec<Token>)
    requires
        lex(input@) is Some,
    ensures
        Some(tokens_view(r@)) == lex(input@),
{
    let cs = chars_of(input);
    match lex_chars(&cs) {
        Some(ts) => ts,
        None => Vec::new(),
    }
}

/// The tokens of `input`, or `None` when a number literal in it cannot be
/// read (see [`tokenize`]).
pub fn try_tokenize(input: &str) -> (r: Option<Vec<Token>>)
    ensures
        match r {
            Some(ts) => lex(input@) == Some(tokens_view(ts@)),
            None => lex(input@) is None,
        },
{
    let cs = chars_of(input);
    lex_chars(&cs)
}

} // verus!
