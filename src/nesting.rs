//! How deeply parentheses nest in a token sequence, and how deep the tree
//! that the parser builds from it is.

use vstd::prelude::*;

use crate::expr::ExprV;
use crate::parse::{parse_expr, parse_items};
use crate::token::TokenV;
use crate::tokenize::{lex, lex_from, prepend, word_token};

verus! {

/// The change of nesting that a token makes.
pub open spec fn step(t: TokenV) -> int {
    if t == TokenV::Paren('(') {
        1
    } else if t == TokenV::Paren(')') {
        -1
    } else {
        0
    }
}

/// The nesting level after the first `k` tokens: opening parentheses
/// minus closing ones.
pub open spec fn level(toks: Seq<TokenV>, k: int) -> int
    decreases k,
{
    if k <= 0 || k > toks.len() {
        0
    } else {
        level(toks, k - 1) + step(toks[k - 1])
    }
}

/// The level never drops below zero and ends at zero.
pub open spec fn balanced(toks: Seq<TokenV>) -> bool {
    &&& forall|k: int| 0 <= k <= toks.len() ==> #[trigger] level(toks, k) >= 0
    &&& level(toks, toks.len() as int) == 0
}

/// Every parenthesis token is `(` or `)`, as the tokenizer makes them.
pub open spec fn parens_only(toks: Seq<TokenV>) -> bool {
    forall|k: int| 0 <= k < toks.len() && (#[trigger] toks[k]) is Paren ==> toks[k]
        == TokenV::Paren('(') || toks[k] == TokenV::Paren(')')
}

pub open spec fn max(a: int, b: int) -> int {
    if a >= b {
        a
    } else {
        b
    }
}

/// The highest level at positions `i` to `j`.
pub open spec fn max_level(toks: Seq<TokenV>, i: int, j: int) -> int
    decreases j - i,
{
    if j <= i {
        level(toks, i)
    } else {
        max(max_level(toks, i, j - 1), level(toks, j))
    }
}

/// The deepest nesting of parentheses in a token sequence.
pub open spec fn max_nesting(toks: Seq<TokenV>) -> int {
    max_level(toks, 0, toks.len() as int)
}

/// The depth of a tree: a list is one deeper than its deepest item.
pub open spec fn depth(e: ExprV) -> int
    decreases e, 0nat,
{
    match e {
        ExprV::List(items) => 1 + items_depth(items),
        _ => 0,
    }
}

/// The depth of the deepest item.
pub open spec fn items_depth(items: Seq<ExprV>) -> int
    decreases items, 1nat,
{
    if items.len() == 0 {
        0
    } else {
        max(depth(items[0]), items_depth(items.subrange(1, items.len() as int)))
    }
}

proof fn lemma_max_level_bounds(toks: Seq<TokenV>, i: int, j: int)
    requires
        i <= j,
    ensures
        max_level(toks, i, j) >= level(toks, i),
        max_level(toks, i, j) >= level(toks, j),
    decreases j - i,
{
    if j > i {
        lemma_max_level_bounds(toks, i, j - 1);
    }
}

proof fn lemma_max_level_split(toks: Seq<TokenV>, i: int, m: int, j: int)
    requires
        i <= m <= j,
    ensures
        max_level(toks, i, j) == max(max_level(toks, i, m), max_level(toks, m, j)),
    decreases j - m,
{
    if j > m {
        lemma_max_level_split(toks, i, m, j - 1);
        lemma_max_level_bounds(toks, m, j - 1);
    } else {
        lemma_max_level_bounds(toks, i, m);
    }
}

proof fn lemma_level_step(toks: Seq<TokenV>, k: int)
    requires
        0 <= k < toks.len(),
    ensures
        level(toks, k + 1) == level(toks, k) + step(toks[k]),
{
}

proof fn lemma_parse_expr(toks: Seq<TokenV>, i: int)
    requires
        balanced(toks),
        parens_only(toks),
        0 <= i < toks.len(),
        toks[i] != TokenV::Paren(')'),
    ensures
        parse_expr(toks, i).0 is Ok,
        i < parse_expr(toks, i).1 <= toks.len(),
        level(toks, parse_expr(toks, i).1) == level(toks, i),
        depth(parse_expr(toks, i).0->Ok_0) == max_level(toks, i, parse_expr(toks, i).1) - level(
            toks,
            i,
        ),
    decreases toks.len() - i, 0nat,
{
    lemma_level_step(toks, i);
    if toks[i] == TokenV::Paren('(') {
        assert(level(toks, i) >= 0);
        lemma_parse_items(toks, i + 1);
        let (r, j) = parse_items(toks, i + 1);
        lemma_max_level_split(toks, i, i + 1, j);
        lemma_max_level_bounds(toks, i + 1, j - 1);
        assert(max_level(toks, i, i) == level(toks, i));
        assert(max_level(toks, i, i + 1) == level(toks, i) + 1);
        assert(max_level(toks, i + 1, j) == max(max_level(toks, i + 1, j - 1), level(toks, j)));
    } else {
        assert(!(toks[i] is Paren));
        assert(max_level(toks, i, i) == level(toks, i));
        assert(max_level(toks, i, i + 1) == max(level(toks, i), level(toks, i + 1)));
    }
}

proof fn lemma_parse_items(toks: Seq<TokenV>, i: int)
    requires
        balanced(toks),
        parens_only(toks),
        0 <= i <= toks.len(),
        level(toks, i) >= 1,
    ensures
        parse_items(toks, i).0 is Ok,
        i < parse_items(toks, i).1 <= toks.len(),
        level(toks, parse_items(toks, i).1) == level(toks, i) - 1,
        items_depth(parse_items(toks, i).0->Ok_0) == max_level(toks, i, parse_items(toks, i).1 - 1)
            - level(toks, i),
    decreases toks.len() - i, 1nat,
{
    if i == toks.len() {
        assert(level(toks, toks.len() as int) == 0);
    }
    lemma_level_step(toks, i);
    if toks[i] == TokenV::Paren(')') {
        assert(items_depth(seq![]) == 0);
    } else {
        lemma_parse_expr(toks, i);
        let (r, j1) = parse_expr(toks, i);
        if j1 == toks.len() {
            assert(level(toks, toks.len() as int) == 0);
        }
        lemma_parse_items(toks, j1);
        let (rest, j) = parse_items(toks, j1);
        let e = r->Ok_0;
        let es = rest->Ok_0;
        let all = seq![e] + es;
        assert(all[0] == e);
        assert(all.subrange(1, all.len() as int) =~= es);
        lemma_max_level_split(toks, i, j1, j - 1);
    }
}

/// A balanced token sequence parses. The tree is as deep as the
/// parentheses of the tokens that the parser takes for it nest, and when it
/// takes them all, as deep as the deepest nesting of the sequence.
pub proof fn lemma_balanced_parse(toks: Seq<TokenV>)
    requires
        toks.len() > 0,
        balanced(toks),
        parens_only(toks),
    ensures
        parse_expr(toks, 0).0 is Ok,
        depth(parse_expr(toks, 0).0->Ok_0) == max_level(toks, 0, parse_expr(toks, 0).1),
        parse_expr(toks, 0).1 == toks.len() ==> depth(parse_expr(toks, 0).0->Ok_0)
            == max_nesting(toks),
{
    lemma_level_step(toks, 0);
    assert(level(toks, 1) >= 0);
    assert(level(toks, 0) == 0);
    lemma_parse_expr(toks, 0);
}

proof fn lemma_prepend_parens_only(t: TokenV, rest: Option<Seq<TokenV>>)
    requires
        t is Paren ==> t == TokenV::Paren('(') || t == TokenV::Paren(')'),
        rest is Some ==> parens_only(rest->Some_0),
    ensures
        prepend(t, rest) is Some ==> parens_only(prepend(t, rest)->Some_0),
{
    if let Some(ts) = rest {
        let all = seq![t] + ts;
        assert forall|k: int| 0 <= k < all.len() && (#[trigger] all[k]) is Paren implies all[k]
            == TokenV::Paren('(') || all[k] == TokenV::Paren(')') by {
            if k > 0 {
                assert(all[k] == ts[k - 1]);
            }
        }
    }
}

proof fn lemma_lex_parens_only(s: Seq<char>, i: int)
    ensures
        lex_from(s, i) is Some ==> parens_only(lex_from(s, i)->Some_0),
    decreases s.len() - i,
{
    if i < 0 || i >= s.len() {
        assert(parens_only(seq![]));
    } else {
        let c = s[i];
        if c == '(' || c == ')' {
            lemma_lex_parens_only(s, i + 1);
            lemma_prepend_parens_only(TokenV::Paren(c), lex_from(s, i + 1));
        } else if crate::text::is_digit(c) {
            let j = crate::tokenize::number_end(s, i);
            crate::tokenize::lemma_number_end(s, i);
            lemma_lex_parens_only(s, j);
            if let Some(v) = crate::number::decimal_value(s.subrange(i, j)) {
                lemma_prepend_parens_only(TokenV::Num(v), lex_from(s, j));
            }
        } else if c == '"' {
            let j = crate::number::find_char(s, '"', i + 1);
            crate::tokenize::lemma_find_char(s, '"', i + 1);
            let k = if j < s.len() {
                j + 1
            } else {
                j
            };
            lemma_lex_parens_only(s, k);
            lemma_prepend_parens_only(TokenV::Str(s.subrange(i + 1, j)), lex_from(s, k));
        } else if crate::text::is_space(c) {
            lemma_lex_parens_only(s, i + 1);
        } else {
            let j = crate::tokenize::word_end(s, i);
            crate::tokenize::lemma_word_end(s, i);
            lemma_lex_parens_only(s, j);
            lemma_prepend_parens_only(word_token(s.subrange(i, j)), lex_from(s, j));
        }
    }
}

/// The tokens of source text whose parentheses balance parse, and the
/// tree is as deep as the parentheses of the tokens taken for it nest; when
/// they are all taken, as deep as the deepest nesting of the source.
pub proof fn lemma_source_balanced_parse(s: Seq<char>)
    requires
        lex(s) is Some,
        lex(s)->Some_0.len() > 0,
        balanced(lex(s)->Some_0),
    ensures
        ({
            let toks = lex(s)->Some_0;
            &&& parse_expr(toks, 0).0 is Ok
            &&& depth(parse_expr(toks, 0).0->Ok_0) == max_level(toks, 0, parse_expr(toks, 0).1)
            &&& parse_expr(toks, 0).1 == toks.len() ==> depth(parse_expr(toks, 0).0->Ok_0)
                == max_nesting(toks)
        }),
{
    lemma_lex_parens_only(s, 0);
    lemma_balanced_parse(lex(s)->Some_0);
}

/// The tokens form one expression: a single atom, or a list whose opening
/// parenthesis is closed by the last token and not before.
pub open spec fn single_expression(toks: Seq<TokenV>) -> bool {
    ||| toks.len() == 1 && !(toks[0] is Paren)
    ||| toks.len() > 0 && toks[0] == TokenV::Paren('(') && forall|k: int|
        0 < k < toks.len() ==> #[trigger] level(toks, k) > 0
}

/// The parser takes a balanced single expression whole, and the tree is as
/// deep as the deepest nesting of its parentheses.
pub proof fn lemma_single_expression_parse(toks: Seq<TokenV>)
    requires
        balanced(toks),
        parens_only(toks),
        single_expression(toks),
    ensures
        parse_expr(toks, 0).0 is Ok,
        parse_expr(toks, 0).1 == toks.len(),
        depth(parse_expr(toks, 0).0->Ok_0) == max_nesting(toks),
{
    lemma_balanced_parse(toks);
    lemma_level_step(toks, 0);
    lemma_parse_expr(toks, 0);
    let j = parse_expr(toks, 0).1;
    assert(level(toks, 0) == 0);
    if toks[0] == TokenV::Paren('(') {
        if j < toks.len() {
            assert(level(toks, j) > 0);
        }
    }
}

/// The tokens of source text that holds one balanced expression are parsed
/// whole, into a tree as deep as the deepest nesting of the source.
pub proof fn lemma_source_single_expression_parse(s: Seq<char>)
    requires
        lex(s) is Some,
        balanced(lex(s)->Some_0),
        single_expression(lex(s)->Some_0),
    ensures
        ({
            let toks = lex(s)->Some_0;
            &&& parse_expr(toks, 0).0 is Ok
            &&& parse_expr(toks, 0).1 == toks.len()
            &&& depth(parse_expr(toks, 0).0->Ok_0) == max_nesting(toks)
        }),
{
    lemma_lex_parens_only(s, 0);
    lemma_single_expression_parse(lex(s)->Some_0);
}

} // verus!
