//! The builtin operations, and the environment that binds them.

use vstd::prelude::*;

use crate::env::Env;
use crate::error::{Error, ErrorV};
use crate::expr::{
    expr_result, exprs_view, lemma_exprs_view_len, lemma_exprs_view_push, to_bool,
    same, to_number, to_text, Builtin, Expr, ExprV, names_view,
};
use crate::number::{arith, lemma_lowest_terms_unique, less, lowest_terms, same_value, trunc_i32, ArithOp, Number, Ratio};

verus! {

/// Every argument as a number; the first that cannot be one decides.
pub open spec fn numbers_of(args: Seq<ExprV>) -> Result<Seq<Ratio>, ErrorV>
    decreases args.len(),
{
    if args.len() == 0 {
        Ok(seq![])
    } else {
        match numbers_of(args.drop_last()) {
            Err(e) => Err(e),
            Ok(ns) => match to_number(args.last()) {
                Ok(n) => Ok(ns.push(n)),
                Err(e) => Err(e),
            },
        }
    }
}

/// Every argument as text; the first that cannot be decides.
pub open spec fn texts_of(args: Seq<ExprV>) -> Result<Seq<Seq<char>>, ErrorV>
    decreases args.len(),
{
    if args.len() == 0 {
        Ok(seq![])
    } else {
        match texts_of(args.drop_last()) {
            Err(e) => Err(e),
            Ok(ts) => match to_text(args.last()) {
                Ok(t) => Ok(ts.push(t)),
                Err(e) => Err(e),
            },
        }
    }
}

/// Every argument as a truth value; the first that cannot be one decides.
pub open spec fn bools_of(args: Seq<ExprV>) -> Result<Seq<bool>, ErrorV>
    decreases args.len(),
{
    if args.len() == 0 {
        Ok(seq![])
    } else {
        match bools_of(args.drop_last()) {
            Err(e) => Err(e),
            Ok(bs) => match to_bool(args.last()) {
                Ok(b) => Ok(bs.push(b)),
                Err(e) => Err(e),
            },
        }
    }
}

/// `((n0 op n1) op n2) ...`, stopping at the first failure.
pub open spec fn fold_arith(op: ArithOp, ns: Seq<Ratio>) -> Result<Ratio, ErrorV>
    decreases ns.len(),
{
    if ns.len() <= 1 {
        Ok(ns[0])
    } else {
        match fold_arith(op, ns.drop_last()) {
            Ok(a) => arith(op, a, ns.last()),
            Err(e) => Err(e),
        }
    }
}

/// The texts one after another.
pub open spec fn concat_all(ts: Seq<Seq<char>>) -> Seq<char>
    decreases ts.len(),
{
    if ts.len() == 0 {
        seq![]
    } else {
        concat_all(ts.drop_last()) + ts.last()
    }
}

/// The comparisons of numbers that the builtins make.
pub open spec fn compares(f: Builtin, a: Ratio, b: Ratio) -> bool {
    match f {
        Builtin::Less => less(a, b),
        Builtin::LessEq => !less(b, a),
        Builtin::Greater => less(b, a),
        Builtin::GreaterEq => !less(a, b),
        _ => same_value(a, b),
    }
}

/// Whether each number compares as `f` says with the next.
pub open spec fn chained(f: Builtin, ns: Seq<Ratio>) -> bool {
    forall|i: int| 0 <= i < ns.len() - 1 ==> #[trigger] compares(f, ns[i], ns[i + 1])
}

/// Whether each value equals the next in kind and value.
pub open spec fn all_equal(vs: Seq<ExprV>) -> bool {
    forall|i: int| 0 <= i < vs.len() - 1 ==> #[trigger] vs[i] == vs[i + 1]
}

pub open spec fn arith_op(f: Builtin) -> ArithOp {
    match f {
        Builtin::Add => ArithOp::Add,
        Builtin::Sub => ArithOp::Sub,
        Builtin::Mul => ArithOp::Mul,
        Builtin::Div => ArithOp::Div,
        _ => ArithOp::Rem,
    }
}

/// What a builtin other than `read` returns for evaluated arguments.
///
/// Arithmetic folds from the left over the arguments as numbers; `concat`
/// joins them as text; `and` and `or` fold them as truth values; all of
/// these want at least one argument. `==` holds when neighbours are equal
/// in kind and value, the comparisons when neighbours compare as numbers.
/// `if` picks its second or third argument by the first. `nth` takes an
/// index and a list, `append` a value and a list. `exit` ends evaluation
/// with a status code.
///
/// `if` is a builtin like the others, not a special form: both branches
/// are evaluated, as arguments, before it picks one.
pub open spec fn apply_pure(f: Builtin, args: Seq<ExprV>) -> Result<ExprV, ErrorV> {
    match f {
        Builtin::Add | Builtin::Sub | Builtin::Mul | Builtin::Div | Builtin::Rem => {
            match numbers_of(args) {
                Err(e) => Err(e),
                Ok(ns) => if ns.len() == 0 {
                    Err(ErrorV::InvalidNumberOfArguments)
                } else {
                    match fold_arith(arith_op(f), ns) {
                        Ok(r) => Ok(ExprV::Num(r)),
                        Err(e) => Err(e),
                    }
                },
            }
        },
        Builtin::Concat => match texts_of(args) {
            Err(e) => Err(e),
            Ok(ts) => if ts.len() == 0 {
                Err(ErrorV::InvalidNumberOfArguments)
            } else {
                Ok(ExprV::Str(concat_all(ts)))
            },
        },
        Builtin::And | Builtin::Or => match bools_of(args) {
            Err(e) => Err(e),
            Ok(bs) => if bs.len() == 0 {
                Err(ErrorV::InvalidNumberOfArguments)
            } else if f == Builtin::And {
                Ok(ExprV::Bool(forall|i: int| 0 <= i < bs.len() ==> #[trigger] bs[i]))
            } else {
                Ok(ExprV::Bool(exists|i: int| 0 <= i < bs.len() && #[trigger] bs[i]))
            },
        },
        Builtin::StrictEq => Ok(ExprV::Bool(all_equal(args))),
        Builtin::LooseEq | Builtin::Less | Builtin::LessEq | Builtin::Greater
        | Builtin::GreaterEq => match numbers_of(args) {
            Err(e) => Err(e),
            Ok(ns) => Ok(ExprV::Bool(chained(f, ns))),
        },
        Builtin::If => if args.len() != 3 {
            Err(ErrorV::InvalidNumberOfArguments)
        } else {
            match to_bool(args[0]) {
                Ok(b) => Ok(
                    if b {
                        args[1]
                    } else {
                        args[2]
                    },
                ),
                Err(e) => Err(e),
            }
        },
        Builtin::Nth => if args.len() != 2 {
            Err(ErrorV::InvalidNumberOfArguments)
        } else {
            match to_number(args[0]) {
                Err(e) => Err(e),
                Ok(r) => match args[1] {
                    ExprV::List(items) => if r.d == 1 && 0 <= r.n < items.len() {
                        Ok(items[r.n])
                    } else {
                        Err(ErrorV::IndexOutOfBounds(r))
                    },
                    _ => Err(ErrorV::UnexpectedType),
                },
            }
        },
        Builtin::Append => if args.len() != 2 {
            Err(ErrorV::InvalidNumberOfArguments)
        } else {
            match args[1] {
                ExprV::List(items) => Ok(ExprV::List(items.push(args[0]))),
                _ => Err(ErrorV::UnexpectedType),
            }
        },
        Builtin::Exit => if args.len() == 0 {
            Err(ErrorV::Exit(0))
        } else if args.len() == 1 {
            match to_number(args[0]) {
                Ok(r) => Err(ErrorV::Exit(trunc_i32(r))),
                Err(e) => Err(e),
            }
        } else {
            Err(ErrorV::InvalidNumberOfArguments)
        },
        Builtin::Read => Err(ErrorV::AwaitingInput),
    }
}

/// What a builtin returns, and how many input lines have been read after
/// it: `read` takes the next pending line, arguments ignored.
pub open spec fn apply(f: Builtin, args: Seq<ExprV>, input: Seq<Seq<char>>, read: nat) -> (
    Result<ExprV, ErrorV>,
    nat,
) {
    if f == Builtin::Read {
        if read < input.len() {
            (Ok(ExprV::Str(input[read as int])), read + 1)
        } else {
            (Err(ErrorV::AwaitingInput), read)
        }
    } else {
        (apply_pure(f, args), read)
    }
}

pub open spec fn nums_view(ns: Seq<Number>) -> Seq<Ratio> {
    ns.map_values(|n: Number| n@)
}

fn numbers(args: &Vec<Expr>) -> (r: Result<Vec<Number>, Error>)
    ensures
        match r {
            Ok(ns) => numbers_of(exprs_view(args@)) == Ok::<Seq<Ratio>, ErrorV>(nums_view(ns@)),
            Err(e) => numbers_of(exprs_view(args@)) == Err::<Seq<Ratio>, ErrorV>(e@),
        },
{
    let ghost av = exprs_view(args@);
    proof {
        lemma_exprs_view_len(args@);
    }
    let mut out: Vec<Number> = Vec::new();
    let mut i: usize = 0;
    assert(av.take(0) =~= seq![]);
    assert(nums_view(out@) =~= seq![]);
    while i < args.len()
        invariant
            i <= args@.len(),
            av == exprs_view(args@),
            av.len() == args@.len(),
            forall|k: int| 0 <= k < args@.len() ==> #[trigger] av[k] == args@[k]@,
            numbers_of(av.take(i as int)) == Ok::<Seq<Ratio>, ErrorV>(nums_view(out@)),
        decreases args@.len() - i,
    {
        assert(av.take(i + 1).drop_last() =~= av.take(i as int));
        match args[i].as_number() {
            Ok(n) => {
                assert(nums_view(out@.push(n)) =~= nums_view(out@).push(n@));
                out.push(n);
            },
            Err(e) => {
                proof {
                    lemma_prefix_error_numbers(av, (i + 1) as int);
                }
                return Err(e);
            },
        }
        i = i + 1;
    }
    assert(av.take(args@.len() as int) =~= av);
    Ok(out)
}

proof fn lemma_prefix_error_numbers(av: Seq<ExprV>, i: int)
    requires
        0 <= i <= av.len(),
        numbers_of(av.take(i)) is Err,
    ensures
        numbers_of(av) == numbers_of(av.take(i)),
    decreases av.len() - i,
{
    if i < av.len() {
        assert(av.take(i + 1).drop_last() =~= av.take(i));
        lemma_prefix_error_numbers(av, i + 1);
    } else {
        assert(av.take(i) =~= av);
    }
}

proof fn lemma_prefix_error_texts(av: Seq<ExprV>, i: int)
    requires
        0 <= i <= av.len(),
        texts_of(av.take(i)) is Err,
    ensures
        texts_of(av) == texts_of(av.take(i)),
    decreases av.len() - i,
{
    if i < av.len() {
        assert(av.take(i + 1).drop_last() =~= av.take(i));
        lemma_prefix_error_texts(av, i + 1);
    } else {
        assert(av.take(i) =~= av);
    }
}

proof fn lemma_prefix_error_bools(av: Seq<ExprV>, i: int)
    requires
        0 <= i <= av.len(),
        bools_of(av.take(i)) is Err,
    ensures
        bools_of(av) == bools_of(av.take(i)),
    decreases av.len() - i,
{
    if i < av.len() {
        assert(av.take(i + 1).drop_last() =~= av.take(i));
        lemma_prefix_error_bools(av, i + 1);
    } else {
        assert(av.take(i) =~= av);
    }
}

fn texts(args: &Vec<Expr>) -> (r: Result<Vec<String>, Error>)
    ensures
        match r {
            Ok(ts) => texts_of(exprs_view(args@)) == Ok::<Seq<Seq<char>>, ErrorV>(
                names_view(ts@),
            ),
            Err(e) => texts_of(exprs_view(args@)) == Err::<Seq<Seq<char>>, ErrorV>(e@),
        },
{
    let ghost av = exprs_view(args@);
    proof {
        lemma_exprs_view_len(args@);
    }
    let mut out: Vec<String> = Vec::new();
    let mut i: usize = 0;
    assert(av.take(0) =~= seq![]);
    assert(names_view(out@) =~= seq![]);
    while i < args.len()
        invariant
            i <= args@.len(),
            av == exprs_view(args@),
            av.len() == args@.len(),
            forall|k: int| 0 <= k < args@.len() ==> #[trigger] av[k] == args@[k]@,
            texts_of(av.take(i as int)) == Ok::<Seq<Seq<char>>, ErrorV>(names_view(out@)),
        decreases args@.len() - i,
    {
        assert(av.take(i + 1).drop_last() =~= av.take(i as int));
        match args[i].as_text() {
            Ok(t) => {
                assert(names_view(out@.push(t)) =~= names_view(out@).push(t@));
                out.push(t);
            },
            Err(e) => {
                proof {
                    lemma_prefix_error_texts(av, (i + 1) as int);
                }
                return Err(e);
            },
        }
        i = i + 1;
    }
    assert(av.take(args@.len() as int) =~= av);
    Ok(out)
}

fn bools(args: &Vec<Expr>) -> (r: Result<Vec<bool>, Error>)
    ensures
        match r {
            Ok(bs) => bools_of(exprs_view(args@)) == Ok::<Seq<bool>, ErrorV>(bs@),
            Err(e) => bools_of(exprs_view(args@)) == Err::<Seq<bool>, ErrorV>(e@),
        },
{
    let ghost av = exprs_view(args@);
    proof {
        lemma_exprs_view_len(args@);
    }
    let mut out: Vec<bool> = Vec::new();
    let mut i: usize = 0;
    assert(av.take(0) =~= seq![]);
    assert(out@ =~= seq![]);
    while i < args.len()
        invariant
            i <= args@.len(),
            av == exprs_view(args@),
            av.len() == args@.len(),
            forall|k: int| 0 <= k < args@.len() ==> #[trigger] av[k] == args@[k]@,
            bools_of(av.take(i as int)) == Ok::<Seq<bool>, ErrorV>(out@),
        decreases args@.len() - i,
    {
        assert(av.take(i + 1).drop_last() =~= av.take(i as int));
        match args[i].as_bool() {
            Ok(b) => {
                out.push(b);
            },
            Err(e) => {
                proof {
                    lemma_prefix_error_bools(av, (i + 1) as int);
                }
                return Err(e);
            },
        }
        i = i + 1;
    }
    assert(av.take(args@.len() as int) =~= av);
    Ok(out)
}


proof fn lemma_prefix_error_fold(op: ArithOp, ns: Seq<Ratio>, i: int)
    requires
        1 <= i <= ns.len(),
        fold_arith(op, ns.take(i)) is Err,
    ensures
        fold_arith(op, ns) == fold_arith(op, ns.take(i)),
    decreases ns.len() - i,
{
    if i < ns.len() {
        assert(ns.take(i + 1).drop_last() =~= ns.take(i));
        lemma_prefix_error_fold(op, ns, i + 1);
    } else {
        assert(ns.take(i) =~= ns);
    }
}

fn arithmetic(op: ArithOp, args: &Vec<Expr>) -> (r: Result<Expr, Error>)
    ensures
        expr_result(r) == (match numbers_of(exprs_view(args@)) {
            Err(e) => Err(e),
            Ok(ns) => if ns.len() == 0 {
                Err(ErrorV::InvalidNumberOfArguments)
            } else {
                match fold_arith(op, ns) {
                    Ok(r) => Ok(ExprV::Num(r)),
                    Err(e) => Err(e),
                }
            },
        }),
{
    let ns = match numbers(args) {
        Ok(ns) => ns,
        Err(e) => return Err(e),
    };
    let ghost nv = nums_view(ns@);
    if ns.len() == 0 {
        return Err(Error::InvalidNumberOfArguments);
    }
    let mut acc = ns[0];
    let mut i: usize = 1;
    assert(fold_arith(op, nv.take(1)) == Ok::<Ratio, ErrorV>(acc@));
    while i < ns.len()
        invariant
            1 <= i <= ns@.len(),
            nv == nums_view(ns@),
            numbers_of(exprs_view(args@)) == Ok::<Seq<Ratio>, ErrorV>(nv),
            fold_arith(op, nv.take(i as int)) == Ok::<Ratio, ErrorV>(acc@),
        decreases ns@.len() - i,
    {
        assert(nv.take(i + 1).drop_last() =~= nv.take(i as int));
        assert(nv.take(i + 1).last() == ns@[i as int]@);
        match Number::arith(op, &acc, &ns[i]) {
            Ok(x) => {
                acc = x;
            },
            Err(e) => {
                proof {
                    assert(fold_arith(op, nv.take(i + 1)) == arith(op, acc@, ns@[i as int]@));
                    lemma_prefix_error_fold(op, nv, (i + 1) as int);
                }
                return Err(e);
            },
        }
        i = i + 1;
    }
    assert(nv.take(ns@.len() as int) =~= nv);
    Ok(Expr::Num(acc))
}

fn concatenation(args: &Vec<Expr>) -> (r: Result<Expr, Error>)
    ensures
        expr_result(r) == apply_pure(Builtin::Concat, exprs_view(args@)),
{
    let ts = match texts(args) {
        Ok(ts) => ts,
        Err(e) => return Err(e),
    };
    let ghost tv = names_view(ts@);
    if ts.len() == 0 {
        return Err(Error::InvalidNumberOfArguments);
    }
    let mut out = String::new();
    let mut i: usize = 0;
    assert(tv.take(0) =~= seq![]);
    while i < ts.len()
        invariant
            i <= ts@.len(),
            tv == names_view(ts@),
            out@ == concat_all(tv.take(i as int)),
        decreases ts@.len() - i,
    {
        assert(tv.take(i + 1).drop_last() =~= tv.take(i as int));
        out.append(ts[i].as_str());
        i = i + 1;
    }
    assert(tv.take(ts@.len() as int) =~= tv);
    Ok(Expr::Str(out))
}

fn logic(f: Builtin, args: &Vec<Expr>) -> (r: Result<Expr, Error>)
    requires
        f == Builtin::And || f == Builtin::Or,
    ensures
        expr_result(r) == apply_pure(f, exprs_view(args@)),
{
    let bs = match bools(args) {
        Ok(bs) => bs,
        Err(e) => return Err(e),
    };
    if bs.len() == 0 {
        return Err(Error::InvalidNumberOfArguments);
    }
    let mut all = true;
    let mut any = false;
    let mut i: usize = 0;
    while i < bs.len()
        invariant
            i <= bs@.len(),
            all == (forall|k: int| 0 <= k < i ==> #[trigger] bs@[k]),
            any == (exists|k: int| 0 <= k < i && #[trigger] bs@[k]),
        decreases bs@.len() - i,
    {
        all = all && bs[i];
        any = any || bs[i];
        i = i + 1;
    }
    if f == Builtin::And {
        Ok(Expr::Bool(all))
    } else {
        Ok(Expr::Bool(any))
    }
}

fn all_same(args: &Vec<Expr>) -> (r: bool)
    ensures
        r == all_equal(exprs_view(args@)),
{
    proof {
        lemma_exprs_view_len(args@);
    }
    let ghost av = exprs_view(args@);
    let mut i: usize = 0;
    while i < args.len() && i + 1 < args.len()
        invariant
            av == exprs_view(args@),
            av.len() == args@.len(),
            forall|k: int| 0 <= k < args@.len() ==> #[trigger] av[k] == args@[k]@,
            i < args@.len() || args@.len() == 0,
            forall|k: int| 0 <= k < i ==> #[trigger] av[k] == av[k + 1],
        decreases args@.len() - i,
    {
        if !same(&args[i], &args[i + 1]) {
            assert(av[i as int] != av[i + 1]);
            return false;
        }
        i = i + 1;
    }
    true
}

fn compare(f: Builtin, a: &Number, b: &Number) -> (r: bool)
    ensures
        r == compares(f, a@, b@),
{
    match f {
        Builtin::Less => a.less_than(b),
        Builtin::LessEq => !b.less_than(a),
        Builtin::Greater => b.less_than(a),
        Builtin::GreaterEq => !a.less_than(b),
        _ => a.same_value_as(b),
    }
}

fn comparison(f: Builtin, args: &Vec<Expr>) -> (r: Result<Expr, Error>)
    ensures
        expr_result(r) == (match numbers_of(exprs_view(args@)) {
            Err(e) => Err(e),
            Ok(ns) => Ok(ExprV::Bool(chained(f, ns))),
        }),
{
    let ns = match numbers(args) {
        Ok(ns) => ns,
        Err(e) => return Err(e),
    };
    let ghost nv = nums_view(ns@);
    let mut i: usize = 0;
    while i < ns.len() && i + 1 < ns.len()
        invariant
            nv == nums_view(ns@),
            numbers_of(exprs_view(args@)) == Ok::<Seq<Ratio>, ErrorV>(nv),
            i < ns@.len() || ns@.len() == 0,
            forall|k: int| 0 <= k < i ==> #[trigger] compares(f, nv[k], nv[k + 1]),
        decreases ns@.len() - i,
    {
        if !compare(f, &ns[i], &ns[i + 1]) {
            assert(nv[i as int] == ns@[i as int]@ && nv[i + 1] == ns@[i + 1]@);
            assert(!compares(f, nv[i as int], nv[i + 1]));
            assert(!chained(f, nv));
            return Ok(Expr::Bool(false));
        }
        i = i + 1;
    }
    Ok(Expr::Bool(true))
}

/// Applies a builtin to evaluated arguments. `read` takes the line of
/// `input` at position `*read` and moves past it.
pub fn apply_builtin(f: Builtin, args: &Vec<Expr>, input: &Vec<String>, read: &mut usize) -> (r:
    Result<Expr, Error>)
    ensures
        (expr_result(r), *final(read) as nat) == apply(
            f,
            exprs_view(args@),
            names_view(input@),
            *old(read) as nat,
        ),
{
    proof {
        lemma_exprs_view_len(args@);
    }
    match f {
        Builtin::Add => arithmetic(ArithOp::Add, args),
        Builtin::Sub => arithmetic(ArithOp::Sub, args),
        Builtin::Mul => arithmetic(ArithOp::Mul, args),
        Builtin::Div => arithmetic(ArithOp::Div, args),
        Builtin::Rem => arithmetic(ArithOp::Rem, args),
        Builtin::Concat => concatenation(args),
        Builtin::And | Builtin::Or => logic(f, args),
        Builtin::StrictEq => Ok(Expr::Bool(all_same(args))),
        Builtin::LooseEq | Builtin::Less | Builtin::LessEq | Builtin::Greater
        | Builtin::GreaterEq => comparison(f, args),
        Builtin::If => {
            if args.len() != 3 {
                return Err(Error::InvalidNumberOfArguments);
            }
            match args[0].as_bool() {
                Ok(b) => if b {
                    Ok(args[1].copy())
                } else {
                    Ok(args[2].copy())
                },
                Err(e) => Err(e),
            }
        },
        Builtin::Nth => {
            if args.len() != 2 {
                return Err(Error::InvalidNumberOfArguments);
            }
            let idx = match args[0].as_number() {
                Ok(n) => n,
                Err(e) => return Err(e),
            };
            match &args[1] {
                Expr::List(items) => {
                    proof {
                        lemma_exprs_view_len(items@);
                    }
                    if idx.denom() == 1 && idx.numer() >= 0 && (idx.numer() as u64) < (
                    items.len() as u64) {
                        Ok(items[idx.numer() as usize].copy())
                    } else {
                        Err(Error::IndexOutOfBounds(idx))
                    }
                },
                _ => Err(Error::UnexpectedType),
            }
        },
        Builtin::Append => {
            if args.len() != 2 {
                return Err(Error::InvalidNumberOfArguments);
            }
            match args[1].copy() {
                Expr::List(mut items) => {
                    let x = args[0].copy();
                    proof {
                        lemma_exprs_view_push(items@, x);
                    }
                    items.push(x);
                    Ok(Expr::List(items))
                },
                _ => Err(Error::UnexpectedType),
            }
        },
        Builtin::Exit => {
            if args.len() == 0 {
                Err(Error::Exit(0))
            } else if args.len() == 1 {
                match args[0].as_number() {
                    Ok(n) => Err(Error::Exit(n.truncate_to_i32())),
                    Err(e) => Err(e),
                }
            } else {
                Err(Error::InvalidNumberOfArguments)
            }
        },
        Builtin::Read => {
            if *read < input.len() {
                let line = input[*read].clone();
                *read = *read + 1;
                Ok(Expr::Str(line))
            } else {
                Err(Error::AwaitingInput)
            }
        },
    }
}


/// The bindings of a fresh environment: each builtin under its name.
pub open spec fn prelude_bindings() -> Map<Seq<char>, ExprV> {
    Map::<Seq<char>, ExprV>::empty()
        .insert("+"@, ExprV::Func(Builtin::Add))
        .insert("-"@, ExprV::Func(Builtin::Sub))
        .insert("*"@, ExprV::Func(Builtin::Mul))
        .insert("/"@, ExprV::Func(Builtin::Div))
        .insert("%"@, ExprV::Func(Builtin::Rem))
        .insert("concat"@, ExprV::Func(Builtin::Concat))
        .insert("and"@, ExprV::Func(Builtin::And))
        .insert("or"@, ExprV::Func(Builtin::Or))
        .insert("exit"@, ExprV::Func(Builtin::Exit))
        .insert("if"@, ExprV::Func(Builtin::If))
        .insert("read"@, ExprV::Func(Builtin::Read))
        .insert("=="@, ExprV::Func(Builtin::StrictEq))
        .insert("="@, ExprV::Func(Builtin::LooseEq))
        .insert("<"@, ExprV::Func(Builtin::Less))
        .insert("<="@, ExprV::Func(Builtin::LessEq))
        .insert(">"@, ExprV::Func(Builtin::Greater))
        .insert(">="@, ExprV::Func(Builtin::GreaterEq))
        .insert("nth"@, ExprV::Func(Builtin::Nth))
        .insert("append"@, ExprV::Func(Builtin::Append))
}

/// A fresh environment, binding every builtin under its name.
pub fn get_prelude() -> (r: Env)
    ensures
        r@ == prelude_bindings(),
{
    let mut env = Env::new();
    env.insert(String::from_str("+"), Expr::Func(Builtin::Add));
    env.insert(String::from_str("-"), Expr::Func(Builtin::Sub));
    env.insert(String::from_str("*"), Expr::Func(Builtin::Mul));
    env.insert(String::from_str("/"), Expr::Func(Builtin::Div));
    env.insert(String::from_str("%"), Expr::Func(Builtin::Rem));
    env.insert(String::from_str("concat"), Expr::Func(Builtin::Concat));
    env.insert(String::from_str("and"), Expr::Func(Builtin::And));
    env.insert(String::from_str("or"), Expr::Func(Builtin::Or));
    env.insert(String::from_str("exit"), Expr::Func(Builtin::Exit));
    env.insert(String::from_str("if"), Expr::Func(Builtin::If));
    env.insert(String::from_str("read"), Expr::Func(Builtin::Read));
    env.insert(String::from_str("=="), Expr::Func(Builtin::StrictEq));
    env.insert(String::from_str("="), Expr::Func(Builtin::LooseEq));
    env.insert(String::from_str("<"), Expr::Func(Builtin::Less));
    env.insert(String::from_str("<="), Expr::Func(Builtin::LessEq));
    env.insert(String::from_str(">"), Expr::Func(Builtin::Greater));
    env.insert(String::from_str(">="), Expr::Func(Builtin::GreaterEq));
    env.insert(String::from_str("nth"), Expr::Func(Builtin::Nth));
    env.insert(String::from_str("append"), Expr::Func(Builtin::Append));
    env
}

/// On two numbers in lowest terms, strict equality `==` and numeric
/// equality `=` give the same answer; they differ only across kinds.
pub proof fn lemma_strict_and_loose_agree_on_numbers(x: Ratio, y: Ratio)
    requires
        lowest_terms(x),
        lowest_terms(y),
    ensures
        apply_pure(Builtin::StrictEq, seq![ExprV::Num(x), ExprV::Num(y)]) == apply_pure(
            Builtin::LooseEq,
            seq![ExprV::Num(x), ExprV::Num(y)],
        ),
{
    let args = seq![ExprV::Num(x), ExprV::Num(y)];
    assert(args.drop_last() =~= seq![ExprV::Num(x)]);
    assert(seq![ExprV::Num(x)].drop_last() =~= Seq::<ExprV>::empty());
    assert(numbers_of(Seq::<ExprV>::empty()) == Ok::<Seq<Ratio>, ErrorV>(seq![]));
    assert(Seq::<Ratio>::empty().push(x) =~= seq![x]);
    assert(numbers_of(seq![ExprV::Num(x)]) == Ok::<Seq<Ratio>, ErrorV>(seq![x]));
    let ns = seq![x].push(y);
    assert(numbers_of(args) == Ok::<Seq<Ratio>, ErrorV>(ns));
    assert(chained(Builtin::LooseEq, ns) == same_value(x, y)) by {
        if same_value(x, y) {
            assert forall|i: int| 0 <= i < ns.len() - 1 implies #[trigger] compares(
                Builtin::LooseEq,
                ns[i],
                ns[i + 1],
            ) by {
                assert(i == 0);
            }
        } else {
            assert(!compares(Builtin::LooseEq, ns[0], ns[1]));
        }
    }
    assert(all_equal(args) == (x == y)) by {
        if x != y {
            assert(args[0] != args[1]);
        }
    }
    if same_value(x, y) {
        lemma_lowest_terms_unique(x, y);
    }
}

/// Numbers as values.
pub open spec fn num_values(ns: Seq<Ratio>) -> Seq<ExprV> {
    ns.map_values(|n: Ratio| ExprV::Num(n))
}

proof fn lemma_numbers_of_num_values(ns: Seq<Ratio>)
    ensures
        numbers_of(num_values(ns)) == Ok::<Seq<Ratio>, ErrorV>(ns),
    decreases ns.len(),
{
    if ns.len() > 0 {
        assert(num_values(ns).drop_last() =~= num_values(ns.drop_last()));
        lemma_numbers_of_num_values(ns.drop_last());
        assert(num_values(ns).last() == ExprV::Num(ns.last()));
        assert(ns.drop_last().push(ns.last()) =~= ns);
    } else {
        assert(num_values(ns) =~= Seq::<ExprV>::empty());
        assert(ns =~= Seq::<Ratio>::empty());
    }
}

/// The arithmetic builtins fold their numbers strictly from the left:
/// `(op n0 n1 ... nk)` is `(...((n0 op n1) op n2)... op nk)`, the fold
/// stopping at the first division by zero or overflow. So `(- 10 2 3)` is
/// `(10 - 2) - 3`.
pub proof fn lemma_arithmetic_is_left_fold(f: Builtin, ns: Seq<Ratio>)
    requires
        f == Builtin::Add || f == Builtin::Sub || f == Builtin::Mul || f == Builtin::Div || f
            == Builtin::Rem,
        ns.len() > 0,
    ensures
        apply_pure(f, num_values(ns)) == (match fold_arith(arith_op(f), ns) {
            Ok(r) => Ok(ExprV::Num(r)),
            Err(e) => Err(e),
        }),
        ns.len() == 1 ==> fold_arith(arith_op(f), ns) == Ok::<Ratio, ErrorV>(ns[0]),
        ns.len() > 1 ==> fold_arith(arith_op(f), ns) == (match fold_arith(
            arith_op(f),
            ns.drop_last(),
        ) {
            Ok(a) => arith(arith_op(f), a, ns.last()),
            Err(e) => Err(e),
        }),
{
    lemma_numbers_of_num_values(ns);
}

} // verus!
