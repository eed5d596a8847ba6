//! An interpreter session: one environment fed whole source strings, and
//! the input lines that `read` takes.

use vstd::prelude::*;

use crate::env::Env;
use crate::error::{Error, ErrorV};
use crate::expr::{expr_result, names_view, Expr, ExprV};
use crate::interpret::{eval, eval_expr, Bindings, MAX_DEPTH};
use crate::parse::{parse, parse_tokens};
use crate::prelude::{get_prelude, prelude_bindings};
use crate::tokenize::{lex, try_tokenize};

verus! {

/// The model of a session: its bindings, and the input lines not yet read.
pub type SessionV = (Bindings, Seq<Seq<char>>);

/// The lines after the first `k`.
pub open spec fn drop_lines(lines: Seq<Seq<char>>, k: nat) -> Seq<Seq<char>> {
    if k <= lines.len() {
        lines.skip(k as int)
    } else {
        seq![]
    }
}

/// One step of a session: the result of evaluating `source`, and the
/// session after it.
///
/// Text that cannot be tokenized or parsed leaves the session as it was.
/// So does an evaluation that needs an input line when none is pending:
/// once a line is given, the same source can be evaluated again from the
/// same state. Any other evaluation keeps the bindings it left and drops
/// the lines it read.
pub open spec fn session_step(s: SessionV, source: Seq<char>) -> (Result<ExprV, ErrorV>, SessionV) {
    match lex(source) {
        None => (Err(ErrorV::UnreadableTokens), s),
        Some(toks) => match parse_tokens(toks) {
            Err(x) => (Err(x), s),
            Ok(e) => {
                let (r, env1, read1) = eval(e, s.0, 0, s.1, MAX_DEPTH as nat);
                if r == Err::<ExprV, ErrorV>(ErrorV::AwaitingInput) {
                    (r, s)
                } else {
                    (r, (env1, drop_lines(s.1, read1)))
                }
            },
        },
    }
}

/// Whether source text is an unfinished expression: it tokenizes, and its
/// tokens end while a list is still open.
pub open spec fn unfinished(source: Seq<char>) -> bool {
    lex(source) is Some && parse_tokens(lex(source)->Some_0) == Err::<ExprV, ErrorV>(
        ErrorV::MissingClosingParenthesis,
    )
}

/// Whether `source` is an unfinished expression, so that an interactive
/// prompt should read another line before evaluating it.
pub fn is_unfinished(source: &str) -> (r: bool)
    ensures
        r == unfinished(source@),
{
    match try_tokenize(source) {
        Some(toks) => match parse(toks) {
            Err(Error::MissingClosingParenthesis) => true,
            _ => false,
        },
        None => false,
    }
}

/// An interpreter session.
pub struct Interpreter {
    env: Env,
    pending: Vec<String>,
}

impl View for Interpreter {
    type V = SessionV;

    closed spec fn view(&self) -> SessionV {
        (self.env@, names_view(self.pending@))
    }
}

impl Interpreter {
    /// A session whose environment binds the builtins, with no input.
    pub fn new() -> (r: Interpreter)
        ensures
            r@ == (prelude_bindings(), Seq::<Seq<char>>::empty()),
    {
        let r = Interpreter { env: get_prelude(), pending: Vec::new() };
        assert(names_view(r.pending@) =~= Seq::<Seq<char>>::empty());
        r
    }

    /// Queues a line for `read` to take.
    pub fn provide_input(&mut self, line: String)
        ensures
            final(self)@ == (old(self)@.0, old(self)@.1.push(line@)),
    {
        let ghost l = line@;
        self.pending.push(line);
        assert(names_view(self.pending@) =~= names_view(old(self).pending@).push(l));
    }

    /// Tokenizes, parses and evaluates `input`, as [`session_step`] states.
    pub fn interpret(&mut self, input: &str) -> (r: Result<Expr, Error>)
        ensures
            (expr_result(r), final(self)@) == session_step(old(self)@, input@),
    {
        let toks = match try_tokenize(input) {
            Some(t) => t,
            None => return Err(Error::UnreadableTokens),
        };
        let e = match parse(toks) {
            Ok(e) => e,
            Err(x) => return Err(x),
        };
        let mut env = self.env.copy();
        let mut read: usize = 0;
        let r = eval_expr(&e, &mut env, &self.pending, &mut read, MAX_DEPTH);
        if let Err(Error::AwaitingInput) = &r {
            return r;
        }
        let ghost lines = names_view(self.pending@);
        let mut rest: Vec<String> = Vec::new();
        let mut i: usize = read;
        proof {
            if read as nat <= lines.len() {
                assert(names_view(rest@) =~= lines.subrange(read as int, i as int));
            }
        }
        while i < self.pending.len()
            invariant
                lines == names_view(self.pending@),
                read <= i,
                read as nat <= lines.len() ==> i <= lines.len() && names_view(rest@)
                    == lines.subrange(read as int, i as int),
                read as nat > lines.len() ==> rest@.len() == 0,
            decreases self.pending@.len() - i,
        {
            let line = self.pending[i].clone();
            assert(names_view(rest@.push(line)) =~= names_view(rest@).push(line@));
            assert(lines.subrange(read as int, i + 1) =~= lines.subrange(read as int, i as int).push(
                lines[i as int],
            ));
            rest.push(line);
            i = i + 1;
        }
        proof {
            if read as nat <= lines.len() {
                assert(lines.skip(read as int) =~= lines.subrange(read as int, lines.len() as int));
            } else {
                assert(names_view(rest@) =~= seq![]);
            }
        }
        self.env = env;
        self.pending = rest;
        r
    }

    /// The value bound to `name` in the session's environment, if any.
    pub fn get(&self, name: &str) -> (r: Option<&Expr>)
        ensures
            match r {
                Some(e) => self@.0.contains_key(name@) && e@ == self@.0[name@],
                None => !self@.0.contains_key(name@),
            },
    {
        self.env.get(name)
    }
}

} // verus!
