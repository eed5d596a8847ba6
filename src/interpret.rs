//! The evaluator: an expression tree reduced against an environment.
//!
//! Evaluation is stated by [`eval`] over the models of expressions and
//! environments. Each nested evaluation takes one unit of a depth budget,
//! so that a runaway recursion ends in `DepthLimitExceeded` rather than in
//! exhausted memory.

use vstd::prelude::*;

use crate::env::Env;
use crate::error::{Error, ErrorV};
use crate::expr::{
    copy_names, expr_result, expr_text, exprs_view, lemma_exprs_view_len, lemma_exprs_view_push,
    names_view, Expr, ExprV, Lambda,
};
use crate::prelude::{apply, apply_builtin};

verus! {

/// The model of an environment.
pub type Bindings = Map<Seq<char>, ExprV>;

/// The depth budget of one evaluation.
pub const MAX_DEPTH: u32 = 512;

/// An argument with a bare identifier replaced by what it is bound to.
/// A builtin cannot be an argument, nor an unbound name.
pub open spec fn resolve_one(v: ExprV, env: Bindings) -> Result<ExprV, ErrorV> {
    match v {
        ExprV::Ident(k) => if env.contains_key(k) {
            if env[k] is Func {
                Err(ErrorV::AttemptedToUseFunctionAsVariable(k))
            } else {
                Ok(env[k])
            }
        } else {
            Err(ErrorV::VariableNotDefined(k))
        },
        _ => Ok(v),
    }
}

/// Every argument resolved; the first failure decides.
pub open spec fn resolve_all(vs: Seq<ExprV>, env: Bindings) -> Result<Seq<ExprV>, ErrorV>
    decreases vs.len(),
{
    if vs.len() == 0 {
        Ok(seq![])
    } else {
        match resolve_all(vs.drop_last(), env) {
            Err(e) => Err(e),
            Ok(rs) => match resolve_one(vs.last(), env) {
                Ok(r) => Ok(rs.push(r)),
                Err(e) => Err(e),
            },
        }
    }
}

/// The names of a parameter list, if every item is an identifier.
pub open spec fn param_names(ps: Seq<ExprV>) -> Option<Seq<Seq<char>>>
    decreases ps.len(),
{
    if ps.len() == 0 {
        Some(seq![])
    } else {
        match (param_names(ps.drop_last()), ps.last()) {
            (Some(ns), ExprV::Ident(n)) => Some(ns.push(n)),
            _ => None,
        }
    }
}

/// The value of `(quote datum...)`, given what follows `quote`: a single
/// datum itself, unevaluated; any other number of them as a list.
pub open spec fn quoted(rest: Seq<ExprV>) -> ExprV {
    if rest.len() == 1 {
        rest[0]
    } else {
        ExprV::List(rest)
    }
}

/// The value of `(func (params...) body)`, given what follows `func`.
pub open spec fn make_lambda(rest: Seq<ExprV>) -> Result<ExprV, ErrorV> {
    if rest.len() != 2 {
        Err(ErrorV::InvalidNumberOfArguments)
    } else {
        match rest[0] {
            ExprV::List(ps) => match param_names(ps) {
                Some(ns) => Ok(ExprV::Lambda(ns, Box::new(rest[1]))),
                None => Err(ErrorV::UnexpectedType),
            },
            _ => Err(ErrorV::UnexpectedType),
        }
    }
}

/// `env` with each parameter bound to its argument, in order.
pub open spec fn bind_all(env: Bindings, ps: Seq<Seq<char>>, args: Seq<ExprV>) -> Bindings
    decreases ps.len(),
{
    if ps.len() == 0 || args.len() == 0 {
        env
    } else {
        bind_all(env, ps.drop_last(), args.drop_last()).insert(ps.last(), args.last())
    }
}

/// The outcome of an evaluation: its result, the environment after it, and
/// how many input lines have been read.
pub type Outcome = (Result<ExprV, ErrorV>, Bindings, nat);

/// Evaluates `e` against `env`, with `input[read..]` the pending input lines
/// and `depth` the remaining depth budget.
///
/// An atom is its own value; a bare identifier is not looked up. A list is
/// dispatched on its first element, which must be an identifier: `def`,
/// `func` and `quote` are special forms (see [`make_lambda`] and
/// [`quoted`]); any other name is looked up. A
/// builtin gets its arguments evaluated and resolved; a lambda gets them
/// too, bound to its parameters in a copy of the caller's environment, in
/// which its body is then evaluated; the caller's environment stays as it
/// was.
pub open spec fn eval(e: ExprV, env: Bindings, read: nat, input: Seq<Seq<char>>, depth: nat) -> Outcome
    decreases depth, 0nat,
{
    if depth == 0 {
        (Err(ErrorV::DepthLimitExceeded), env, read)
    } else {
        match e {
            ExprV::Num(_) | ExprV::Str(_) | ExprV::Ident(_) | ExprV::Bool(_) => (Ok(e), env, read),
            ExprV::List(items) => {
                if items.len() == 0 {
                    (Err(ErrorV::EmptyListExpression), env, read)
                } else {
                    let rest = items.subrange(1, items.len() as int);
                    match items[0] {
                        ExprV::Ident(name) => {
                            if name == "def"@ {
                                if rest.len() != 2 {
                                    (Err(ErrorV::InvalidNumberOfArguments), env, read)
                                } else {
                                    match rest[0] {
                                        ExprV::Ident(key) => {
                                            let (r, env1, read1) = eval(
                                                rest[1],
                                                env,
                                                read,
                                                input,
                                                (depth - 1) as nat,
                                            );
                                            match r {
                                                Ok(v) => (Ok(v), env1.insert(key, v), read1),
                                                Err(x) => (Err(x), env1, read1),
                                            }
                                        },
                                        _ => (Err(ErrorV::UnexpectedType), env, read),
                                    }
                                }
                            } else if name == "func"@ {
                                (make_lambda(rest), env, read)
                            } else if name == "quote"@ {
                                (Ok(quoted(rest)), env, read)
                            } else if !env.contains_key(name) {
                                (Err(ErrorV::FunctionNotDefined(name)), env, read)
                            } else {
                                match env[name] {
                                    ExprV::Func(f) => {
                                        let (ra, env1, read1) = call_args(
                                            rest,
                                            env,
                                            read,
                                            input,
                                            (depth - 1) as nat,
                                        );
                                        match ra {
                                            Err(x) => (Err(x), env1, read1),
                                            Ok(args) => {
                                                let (r, read2) = apply(f, args, input, read1);
                                                (r, env1, read2)
                                            },
                                        }
                                    },
                                    ExprV::Lambda(params, body) => {
                                        if params.len() != rest.len() {
                                            (Err(ErrorV::InvalidNumberOfArguments), env, read)
                                        } else {
                                            let (ra, env1, read1) = call_args(
                                                rest,
                                                env,
                                                read,
                                                input,
                                                (depth - 1) as nat,
                                            );
                                            match ra {
                                                Err(x) => (Err(x), env1, read1),
                                                Ok(args) => {
                                                    let (r, _, read2) = eval(
                                                        *body,
                                                        bind_all(env1, params, args),
                                                        read1,
                                                        input,
                                                        (depth - 1) as nat,
                                                    );
                                                    (r, env1, read2)
                                                },
                                            }
                                        }
                                    },
                                    _ => (Err(ErrorV::UnexpectedType), env, read),
                                }
                            }
                        },
                        first => (Err(ErrorV::NotAnIdentifier(expr_text(first))), env, read),
                    }
                }
            },
            _ => (Err(ErrorV::UnexpectedType), env, read),
        }
    }
}

/// The arguments of a call evaluated left to right, then resolved against
/// the environment that their evaluation left.
pub open spec fn call_args(
    items: Seq<ExprV>,
    env: Bindings,
    read: nat,
    input: Seq<Seq<char>>,
    depth: nat,
) -> (Result<Seq<ExprV>, ErrorV>, Bindings, nat)
    decreases depth, items.len() + 2,
{
    let (r, env1, read1) = eval_args(items, env, read, input, depth);
    match r {
        Err(x) => (Err(x), env1, read1),
        Ok(vs) => (resolve_all(vs, env1), env1, read1),
    }
}

/// The expressions evaluated left to right, each in the environment the
/// one before left; the first failure stops it.
pub open spec fn eval_args(
    items: Seq<ExprV>,
    env: Bindings,
    read: nat,
    input: Seq<Seq<char>>,
    depth: nat,
) -> (Result<Seq<ExprV>, ErrorV>, Bindings, nat)
    decreases depth, items.len() + 1,
{
    if items.len() == 0 {
        (Ok(seq![]), env, read)
    } else {
        let (r, env1, read1) = eval_args(items.drop_last(), env, read, input, depth);
        match r {
            Err(x) => (Err(x), env1, read1),
            Ok(vs) => {
                let (r2, env2, read2) = eval(items.last(), env1, read1, input, depth);
                match r2 {
                    Ok(v) => (Ok(vs.push(v)), env2, read2),
                    Err(x) => (Err(x), env2, read2),
                }
            },
        }
    }
}

proof fn lemma_eval_args_prefix_error(
    items: Seq<ExprV>,
    i: int,
    env: Bindings,
    read: nat,
    input: Seq<Seq<char>>,
    depth: nat,
)
    requires
        0 <= i <= items.len(),
        eval_args(items.take(i), env, read, input, depth).0 is Err,
    ensures
        eval_args(items, env, read, input, depth) == eval_args(items.take(i), env, read, input, depth),
    decreases items.len() - i,
{
    if i < items.len() {
        assert(items.take(i + 1).drop_last() =~= items.take(i));
        lemma_eval_args_prefix_error(items, i + 1, env, read, input, depth);
    } else {
        assert(items.take(i) =~= items);
    }
}

proof fn lemma_resolve_prefix_error(vs: Seq<ExprV>, i: int, env: Bindings)
    requires
        0 <= i <= vs.len(),
        resolve_all(vs.take(i), env) is Err,
    ensures
        resolve_all(vs, env) == resolve_all(vs.take(i), env),
    decreases vs.len() - i,
{
    if i < vs.len() {
        assert(vs.take(i + 1).drop_last() =~= vs.take(i));
        lemma_resolve_prefix_error(vs, i + 1, env);
    } else {
        assert(vs.take(i) =~= vs);
    }
}

proof fn lemma_param_names_prefix(ps: Seq<ExprV>, i: int)
    requires
        0 <= i <= ps.len(),
        param_names(ps.take(i)) is None,
    ensures
        param_names(ps) is None,
    decreases ps.len() - i,
{
    if i < ps.len() {
        assert(ps.take(i + 1).drop_last() =~= ps.take(i));
        lemma_param_names_prefix(ps, i + 1);
    } else {
        assert(ps.take(i) =~= ps);
    }
}

/// The model of a result of argument evaluation.
pub open spec fn exprs_result(r: Result<Vec<Expr>, Error>) -> Result<Seq<ExprV>, ErrorV> {
    match r {
        Ok(v) => Ok(exprs_view(v@)),
        Err(x) => Err(x@),
    }
}

fn resolve_arguments(vals: &Vec<Expr>, env: &Env) -> (r: Result<Vec<Expr>, Error>)
    ensures
        exprs_result(r) == resolve_all(exprs_view(vals@), env@),
{
    let ghost vv = exprs_view(vals@);
    proof {
        lemma_exprs_view_len(vals@);
    }
    let mut out: Vec<Expr> = Vec::new();
    let mut i: usize = 0;
    assert(vv.take(0) =~= seq![]);
    while i < vals.len()
        invariant
            i <= vals@.len(),
            vv == exprs_view(vals@),
            vv.len() == vals@.len(),
            forall|k: int| 0 <= k < vals@.len() ==> #[trigger] vv[k] == vals@[k]@,
            resolve_all(vv.take(i as int), env@) == Ok::<Seq<ExprV>, ErrorV>(exprs_view(out@)),
        decreases vals@.len() - i,
    {
        assert(vv.take(i + 1).drop_last() =~= vv.take(i as int));
        let x = match &vals[i] {
            Expr::Ident(k) => match env.lookup(k) {
                Some(Expr::Func(_)) => {
                    proof {
                        lemma_resolve_prefix_error(vv, i + 1, env@);
                    }
                    return Err(Error::AttemptedToUseFunctionAsVariable(k.clone()));
                },
                Some(v) => v.copy(),
                None => {
                    proof {
                        lemma_resolve_prefix_error(vv, i + 1, env@);
                    }
                    return Err(Error::VariableNotDefined(k.clone()));
                },
            },
            v => v.copy(),
        };
        proof {
            lemma_exprs_view_push(out@, x);
        }
        out.push(x);
        i = i + 1;
    }
    assert(vv.take(vals@.len() as int) =~= vv);
    Ok(out)
}

fn lambda_of(rest: &Vec<Expr>) -> (r: Result<Expr, Error>)
    ensures
        expr_result(r) == make_lambda(exprs_view(rest@)),
{
    proof {
        lemma_exprs_view_len(rest@);
    }
    if rest.len() != 2 {
        return Err(Error::InvalidNumberOfArguments);
    }
    match &rest[0] {
        Expr::List(ps) => {
            let ghost pv = exprs_view(ps@);
            proof {
                lemma_exprs_view_len(ps@);
            }
            let mut names: Vec<String> = Vec::new();
            let mut i: usize = 0;
            assert(pv.take(0) =~= seq![]);
            assert(names_view(names@) =~= seq![]);
            while i < ps.len()
                invariant
                    i <= ps@.len(),
                    pv == exprs_view(ps@),
                    pv.len() == ps@.len(),
                    forall|k: int| 0 <= k < ps@.len() ==> #[trigger] pv[k] == ps@[k]@,
                    param_names(pv.take(i as int)) == Some(names_view(names@)),
                    exprs_view(rest@).len() == 2,
                    exprs_view(rest@)[0] == ExprV::List(pv),
                decreases ps@.len() - i,
            {
                assert(pv.take(i + 1).drop_last() =~= pv.take(i as int));
                match &ps[i] {
                    Expr::Ident(n) => {
                        let c = n.clone();
                        assert(names_view(names@.push(c)) =~= names_view(names@).push(n@));
                        names.push(c);
                    },
                    _ => {
                        proof {
                            lemma_param_names_prefix(pv, i + 1);
                        }
                        return Err(Error::UnexpectedType);
                    },
                }
                i = i + 1;
            }
            assert(pv.take(ps@.len() as int) =~= pv);
            let body = rest[1].copy();
            Ok(Expr::Lambda(Lambda { args: names, body: Box::new(body) }))
        },
        _ => Err(Error::UnexpectedType),
    }
}

fn evaluate_arguments(
    items: &Vec<Expr>,
    env: &mut Env,
    input: &Vec<String>,
    read: &mut usize,
    depth: u32,
) -> (r: Result<Vec<Expr>, Error>)
    requires
        items@.len() >= 1,
    ensures
        (exprs_result(r), final(env)@, *final(read) as nat) == call_args(
            exprs_view(items@).skip(1),
            old(env)@,
            *old(read) as nat,
            names_view(input@),
            depth as nat,
        ),
    decreases depth, 4nat,
{
    let ghost iv = exprs_view(items@).skip(1);
    let ghost env0 = env@;
    let ghost read0 = *read as nat;
    let ghost inp = names_view(input@);
    proof {
        lemma_exprs_view_len(items@);
    }
    let mut vals: Vec<Expr> = Vec::new();
    let mut i: usize = 1;
    assert(iv.take(0) =~= seq![]);
    assert(exprs_view(vals@) =~= seq![]);
    while i < items.len()
        invariant
            1 <= i <= items@.len(),
            iv == exprs_view(items@).skip(1),
            iv.len() == items@.len() - 1,
            forall|k: int| 1 <= k < items@.len() ==> #[trigger] iv[k - 1] == items@[k]@,
            inp == names_view(input@),
            env0 == old(env)@,
            read0 == *old(read) as nat,
            (Ok::<Seq<ExprV>, ErrorV>(exprs_view(vals@)), env@, *read as nat) == eval_args(
                iv.take(i - 1),
                env0,
                read0,
                inp,
                depth as nat,
            ),
        decreases items@.len() - i,
    {
        assert(iv.take(i as int).drop_last() =~= iv.take(i - 1));
        assert(iv.take(i as int).last() == items@[i as int]@);
        let r = eval_expr(&items[i], env, input, read, depth);
        match r {
            Ok(v) => {
                proof {
                    lemma_exprs_view_push(vals@, v);
                }
                vals.push(v);
            },
            Err(x) => {
                proof {
                    assert(eval_args(iv.take(i as int), env0, read0, inp, depth as nat) == (
                        Err::<Seq<ExprV>, ErrorV>(x@),
                        env@,
                        *read as nat,
                    ));
                    lemma_eval_args_prefix_error(iv, i as int, env0, read0, inp, depth as nat);
                }
                return Err(x);
            },
        }
        i = i + 1;
    }
    assert(iv.take(i - 1) =~= iv);
    resolve_arguments(&vals, env)
}

fn bind_arguments(env: &Env, params: &Vec<String>, args: &Vec<Expr>) -> (r: Env)
    requires
        params@.len() == args@.len(),
    ensures
        r@ == bind_all(env@, names_view(params@), exprs_view(args@)),
{
    let ghost pv = names_view(params@);
    let ghost av = exprs_view(args@);
    proof {
        lemma_exprs_view_len(args@);
    }
    let mut local = env.copy();
    let mut i: usize = 0;
    assert(bind_all(env@, pv.take(0), av.take(0)) == env@);
    while i < params.len()
        invariant
            i <= params@.len() == args@.len(),
            pv == names_view(params@),
            av == exprs_view(args@),
            av.len() == args@.len(),
            forall|k: int| 0 <= k < args@.len() ==> #[trigger] av[k] == args@[k]@,
            local@ == bind_all(env@, pv.take(i as int), av.take(i as int)),
        decreases params@.len() - i,
    {
        assert(pv.take(i + 1).drop_last() =~= pv.take(i as int));
        assert(av.take(i + 1).drop_last() =~= av.take(i as int));
        local.insert(params[i].clone(), args[i].copy());
        i = i + 1;
    }
    assert(pv.take(params@.len() as int) =~= pv);
    assert(av.take(args@.len() as int) =~= av);
    local
}

proof fn lemma_eval_args_len(
    items: Seq<ExprV>,
    env: Bindings,
    read: nat,
    input: Seq<Seq<char>>,
    depth: nat,
)
    requires
        eval_args(items, env, read, input, depth).0 is Ok,
    ensures
        eval_args(items, env, read, input, depth).0->Ok_0.len() == items.len(),
    decreases items.len(),
{
    if items.len() > 0 {
        lemma_eval_args_len(items.drop_last(), env, read, input, depth);
    }
}

proof fn lemma_resolve_all_len(vs: Seq<ExprV>, env: Bindings)
    requires
        resolve_all(vs, env) is Ok,
    ensures
        resolve_all(vs, env)->Ok_0.len() == vs.len(),
    decreases vs.len(),
{
    if vs.len() > 0 {
        lemma_resolve_all_len(vs.drop_last(), env);
    }
}

/// Copies of the items after the first.
fn tail_of(items: &Vec<Expr>) -> (r: Vec<Expr>)
    requires
        items@.len() >= 1,
    ensures
        exprs_view(r@) == exprs_view(items@).subrange(1, items@.len() as int),
{
    let ghost iv = exprs_view(items@);
    proof {
        lemma_exprs_view_len(items@);
    }
    let mut tail: Vec<Expr> = Vec::new();
    let mut i: usize = 1;
    assert(exprs_view(tail@) =~= iv.subrange(1, 1));
    while i < items.len()
        invariant
            1 <= i <= items@.len(),
            iv == exprs_view(items@),
            iv.len() == items@.len(),
            forall|k: int| 0 <= k < items@.len() ==> #[trigger] iv[k] == items@[k]@,
            exprs_view(tail@) == iv.subrange(1, i as int),
        decreases items@.len() - i,
    {
        let x = items[i].copy();
        proof {
            lemma_exprs_view_push(tail@, x);
            assert(iv.subrange(1, i + 1) =~= iv.subrange(1, i as int).push(iv[i as int]));
        }
        tail.push(x);
        i = i + 1;
    }
    tail
}

fn eval_def(items: &Vec<Expr>, env: &mut Env, input: &Vec<String>, read: &mut usize, depth: u32) -> (r:
    Result<Expr, Error>)
    requires
        depth >= 1,
        items@.len() >= 1,
        exprs_view(items@)[0] == ExprV::Ident("def"@),
    ensures
        (expr_result(r), final(env)@, *final(read) as nat) == eval(
            ExprV::List(exprs_view(items@)),
            old(env)@,
            *old(read) as nat,
            names_view(input@),
            depth as nat,
        ),
    decreases depth, 2nat,
{
    proof {
        lemma_exprs_view_len(items@);
    }
    let ghost iv = exprs_view(items@);
    let ghost rest = iv.subrange(1, iv.len() as int);
    if items.len() != 3 {
        return Err(Error::InvalidNumberOfArguments);
    }
    assert(rest[0] == items@[1]@ && rest[1] == items@[2]@);
    match &items[1] {
        Expr::Ident(key) => {
            let r = eval_expr(&items[2], env, input, read, depth - 1);
            match r {
                Ok(v) => {
                    let keep = v.copy();
                    env.insert(key.clone(), v);
                    Ok(keep)
                },
                Err(x) => Err(x),
            }
        },
        _ => Err(Error::UnexpectedType),
    }
}

fn eval_call(
    name: &String,
    items: &Vec<Expr>,
    env: &mut Env,
    input: &Vec<String>,
    read: &mut usize,
    depth: u32,
) -> (r: Result<Expr, Error>)
    requires
        depth >= 1,
        items@.len() >= 1,
        exprs_view(items@)[0] == ExprV::Ident(name@),
        name@ != "def"@,
        name@ != "func"@,
        name@ != "quote"@,
    ensures
        (expr_result(r), final(env)@, *final(read) as nat) == eval(
            ExprV::List(exprs_view(items@)),
            old(env)@,
            *old(read) as nat,
            names_view(input@),
            depth as nat,
        ),
    decreases depth, 2nat,
{
    proof {
        lemma_exprs_view_len(items@);
    }
    let ghost iv = exprs_view(items@);
    let ghost rest = iv.subrange(1, iv.len() as int);
    assert(rest =~= iv.skip(1));
    let callee = match env.lookup(name) {
        Some(Expr::Func(f)) => Expr::Func(*f),
        Some(Expr::Lambda(l)) => Expr::Lambda(
            Lambda { args: copy_names(&l.args), body: Box::new(l.body.copy()) },
        ),
        Some(_) => {
            return Err(Error::UnexpectedType);
        },
        None => {
            return Err(Error::FunctionNotDefined(name.clone()));
        },
    };
    match callee {
        Expr::Func(f) => {
            let args = match evaluate_arguments(items, env, input, read, depth - 1) {
                Ok(args) => args,
                Err(x) => return Err(x),
            };
            apply_builtin(f, &args, input, read)
        },
        Expr::Lambda(l) => {
            if l.args.len() != items.len() - 1 {
                return Err(Error::InvalidNumberOfArguments);
            }
            let ghost env0 = env@;
            let ghost read0 = *read as nat;
            let args = match evaluate_arguments(items, env, input, read, depth - 1) {
                Ok(args) => args,
                Err(x) => return Err(x),
            };
            proof {
                let (ra, env1, read1) = eval_args(rest, env0, read0, names_view(input@), (depth - 1) as nat);
                lemma_eval_args_len(rest, env0, read0, names_view(input@), (depth - 1) as nat);
                lemma_resolve_all_len(ra->Ok_0, env1);
                lemma_exprs_view_len(args@);
            }
            let mut local = bind_arguments(env, &l.args, &args);
            eval_expr(&l.body, &mut local, input, read, depth - 1)
        },
        _ => Err(Error::UnexpectedType),
    }
}

/// Evaluates `e`, as [`eval`] states.
pub fn eval_expr(e: &Expr, env: &mut Env, input: &Vec<String>, read: &mut usize, depth: u32) -> (r:
    Result<Expr, Error>)
    ensures
        (expr_result(r), final(env)@, *final(read) as nat) == eval(
            e@,
            old(env)@,
            *old(read) as nat,
            names_view(input@),
            depth as nat,
        ),
    decreases depth, 3nat,
{
    if depth == 0 {
        return Err(Error::DepthLimitExceeded);
    }
    match e {
        Expr::Num(_) | Expr::Str(_) | Expr::Ident(_) | Expr::Bool(_) => Ok(e.copy()),
        Expr::List(items) => {
            proof {
                lemma_exprs_view_len(items@);
            }
            if items.len() == 0 {
                return Err(Error::EmptyListExpression);
            }
            match &items[0] {
                Expr::Ident(name) => {
                    if name.eq(&String::from_str("def")) {
                        eval_def(items, env, input, read, depth)
                    } else if name.eq(&String::from_str("func")) {
                        let tail = tail_of(items);
                        lambda_of(&tail)
                    } else if name.eq(&String::from_str("quote")) {
                        if items.len() == 2 {
                            Ok(items[1].copy())
                        } else {
                            let tail = tail_of(items);
                            Ok(Expr::List(tail))
                        }
                    } else {
                        eval_call(name, items, env, input, read, depth)
                    }
                },
                first => Err(Error::NotAnIdentifier(first.to_text())),
            }
        },
        _ => Err(Error::UnexpectedType),
    }
}

/// Evaluates `ast` against `env`, with no input pending, as [`eval`]
/// states with the depth budget [`MAX_DEPTH`].
pub fn interpret(ast: Expr, env: &mut Env) -> (r: Result<Expr, Error>)
    ensures
        (expr_result(r), final(env)@) == ({
            let (res, env1, _) = eval(ast@, old(env)@, 0, seq![], MAX_DEPTH as nat);
            (res, env1)
        }),
{
    let input: Vec<String> = Vec::new();
    let mut read: usize = 0;
    assert(names_view(input@) =~= seq![]);
    eval_expr(&ast, env, &input, &mut read, MAX_DEPTH)
}

} // verus!
