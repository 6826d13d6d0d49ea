use vstd::prelude::*;
use crate::ast::{Atom, BuiltIn, Expr, SpecAtom, SpecExpr, view_expr, view_exprs, view_bindings, view_exprs_len, view_exprs_index, view_exprs_push, view_bindings_len, view_bindings_index, spec_truthy, expr_eq, truthy};
use crate::bignum::{canon_of, canonical, int_of, trunc_div};
use crate::floats::{FloatQuery, FloatTable, SpecAnswer, SpecQuery, slookup};
use crate::print::print_expr;

verus! {

/// Why an evaluation stopped.
///
/// The first five are the language's errors. `MissingFloat` is not an error
/// of the language: it asks the host for one double operation (see the floats
/// module). `Exhausted` reports that the step budget ran out; the budget the
/// library uses is far beyond what any machine can step through.
#[derive(Debug, Clone)]
pub enum EvalError {
    /// A symbol was read that the environment does not bind.
    UnboundSymbol(String),
    /// An operand had the wrong shape; carries the message with the printed
    /// offender.
    TypeError(String),
    /// Too many arguments: the most that is accepted, and the count given.
    Arity(usize, usize),
    /// An `if` without an else whose predicate was false; carries the printed
    /// predicate value.
    NoBranch(String),
    /// Integer division by zero.
    DomainError(String),
    /// The query the host has not answered yet.
    MissingFloat(FloatQuery),
    /// The step budget ran out.
    Exhausted,
}

/// The mathematical shape of an evaluation error.
#[verifier::ext_equal]
pub enum SpecEvalError {
    UnboundSymbol(Seq<char>),
    TypeError(Seq<char>),
    Arity(nat, nat),
    NoBranch(Seq<char>),
    DomainError(Seq<char>),
    MissingFloat(SpecQuery),
    Exhausted,
}

impl View for EvalError {
    type V = SpecEvalError;

    open spec fn view(&self) -> SpecEvalError {
        match self {
            EvalError::UnboundSymbol(s) => SpecEvalError::UnboundSymbol(s@),
            EvalError::TypeError(s) => SpecEvalError::TypeError(s@),
            EvalError::Arity(a, b) => SpecEvalError::Arity(*a as nat, *b as nat),
            EvalError::NoBranch(s) => SpecEvalError::NoBranch(s@),
            EvalError::DomainError(s) => SpecEvalError::DomainError(s@),
            EvalError::MissingFloat(q) => SpecEvalError::MissingFloat(q@),
            EvalError::Exhausted => SpecEvalError::Exhausted,
        }
    }
}

/// What one evaluation yields.
#[verifier::ext_equal]
pub enum SpecOutcome {
    Val(SpecExpr),
    Fail(SpecEvalError),
}

/// An evaluation's outcome together with the environment it leaves behind:
/// definitions made before an error stay made.
#[verifier::ext_equal]
pub struct SpecEvalResult {
    pub outcome: SpecOutcome,
    pub env: Map<Seq<char>, SpecExpr>,
}

/// The environment a run of (name, value) entries stands for; a later entry
/// shadows an earlier one of the same name.
pub open spec fn env_view(s: Seq<(String, Expr)>) -> Map<Seq<char>, SpecExpr>
    decreases s.len(),
{
    if s.len() == 0 {
        Map::empty()
    } else {
        env_view(s.drop_last()).insert(s.last().0@, view_expr(s.last().1))
    }
}

/// The truth representation: `T` for true, `nil` for false.
pub open spec fn bool_expr(b: bool) -> SpecExpr {
    if b {
        SpecExpr::Constant(SpecAtom::Symbol(seq!['T']))
    } else {
        SpecExpr::Nil
    }
}

/// The integer a value stands for: a number constant with canonical text.
pub open spec fn as_int(v: SpecExpr) -> Option<int> {
    match v {
        SpecExpr::Constant(SpecAtom::Number(t)) => if canonical(t) {
            Some(int_of(t))
        } else {
            None
        },
        _ => None,
    }
}

/// The text of a double constant.
pub open spec fn as_float(v: SpecExpr) -> Option<Seq<char>> {
    match v {
        SpecExpr::Constant(SpecAtom::Float(t)) => Some(t),
        _ => None,
    }
}

/// The first value of the run that is not a double, if any.
pub open spec fn first_non_float(vals: Seq<SpecExpr>) -> Option<SpecExpr>
    decreases vals.len(),
{
    if vals.len() == 0 {
        None
    } else if as_float(vals[0]) is None {
        Some(vals[0])
    } else {
        first_non_float(vals.drop_first())
    }
}

/// The first value of the run that is not an integer, if any.
pub open spec fn first_non_int(vals: Seq<SpecExpr>) -> Option<SpecExpr>
    decreases vals.len(),
{
    if vals.len() == 0 {
        None
    } else if as_int(vals[0]) is None {
        Some(vals[0])
    } else {
        first_non_int(vals.drop_first())
    }
}

/// The sum of a run of integer values.
pub open spec fn sum_ints(vals: Seq<SpecExpr>) -> int
    decreases vals.len(),
{
    if vals.len() == 0 {
        0
    } else {
        sum_ints(vals.drop_last()) + as_int(vals.last()).unwrap_or(0)
    }
}

/// The product of a run of integer values.
pub open spec fn prod_ints(vals: Seq<SpecExpr>) -> int
    decreases vals.len(),
{
    if vals.len() == 0 {
        1
    } else {
        prod_ints(vals.drop_last()) * as_int(vals.last()).unwrap_or(1)
    }
}

/// Left fold of integer subtraction.
pub open spec fn fold_sub(acc: int, vals: Seq<SpecExpr>) -> int
    decreases vals.len(),
{
    if vals.len() == 0 {
        acc
    } else {
        fold_sub(acc - as_int(vals[0]).unwrap_or(0), vals.drop_first())
    }
}

/// Left fold of truncating integer division; a zero divisor is a domain
/// error.
pub open spec fn fold_div(acc: int, vals: Seq<SpecExpr>) -> Result<int, ()>
    decreases vals.len(),
{
    if vals.len() == 0 {
        Ok(acc)
    } else if as_int(vals[0]).unwrap_or(0) == 0 {
        Err(())
    } else {
        fold_div(trunc_div(acc, as_int(vals[0]).unwrap_or(0)), vals.drop_first())
    }
}

/// Left fold of a double operation through the query table: each step asks
/// the table for `acc op next`; an unanswered step reports its query.
pub open spec fn float_fold(
    op: BuiltIn,
    acc: Seq<char>,
    vals: Seq<SpecExpr>,
    t: Seq<(SpecQuery, SpecAnswer)>,
) -> Result<Seq<char>, SpecQuery>
    decreases vals.len(),
{
    if vals.len() == 0 {
        Ok(acc)
    } else {
        let q = SpecQuery::Bin(op, acc, as_float(vals[0]).unwrap_or(Seq::empty()));
        match slookup(t, q) {
            Some(SpecAnswer::Text(next)) => float_fold(op, next, vals.drop_first(), t),
            _ => Err(q),
        }
    }
}

/// One ordered comparison of adjacent values: integers by value, doubles
/// through the query table, anything else false.
pub open spec fn pair_cmp(
    op: BuiltIn,
    a: SpecExpr,
    b: SpecExpr,
    t: Seq<(SpecQuery, SpecAnswer)>,
) -> Result<bool, SpecQuery> {
    if as_int(a) is Some && as_int(b) is Some {
        let x = as_int(a).unwrap_or(0);
        let y = as_int(b).unwrap_or(0);
        Ok(
            match op {
                BuiltIn::Greater => x > y,
                BuiltIn::Less => x < y,
                BuiltIn::GreaterEqual => x >= y,
                BuiltIn::LessEqual => x <= y,
                _ => false,
            },
        )
    } else if as_float(a) is Some && as_float(b) is Some {
        let q = SpecQuery::Cmp(op, as_float(a).unwrap_or(Seq::empty()), as_float(b).unwrap_or(Seq::empty()));
        match slookup(t, q) {
            Some(SpecAnswer::Truth(r)) => Ok(r),
            _ => Err(q),
        }
    } else {
        Ok(false)
    }
}

/// All adjacent pairs satisfy the comparison; stops at the first false pair,
/// as the host stops asking once the answer is known.
pub open spec fn cmp_all(
    op: BuiltIn,
    vals: Seq<SpecExpr>,
    t: Seq<(SpecQuery, SpecAnswer)>,
) -> Result<bool, SpecQuery>
    decreases vals.len(),
{
    if vals.len() < 2 {
        Ok(true)
    } else {
        match pair_cmp(op, vals[0], vals[1], t) {
            Ok(true) => cmp_all(op, vals.drop_first(), t),
            r => r,
        }
    }
}

/// All adjacent pairs are structurally equal.
pub open spec fn eq_all(vals: Seq<SpecExpr>) -> bool {
    forall|i: int| 0 <= i < vals.len() - 1 ==> #[trigger] vals[i] == vals[i + 1]
}

/// All adjacent pairs are structurally distinct.
pub open spec fn neq_all(vals: Seq<SpecExpr>) -> bool {
    forall|i: int| 0 <= i < vals.len() - 1 ==> #[trigger] vals[i] != vals[i + 1]
}

/// Every value is true under the truthiness rule.
pub open spec fn all_truthy(vals: Seq<SpecExpr>) -> bool {
    forall|i: int| 0 <= i < vals.len() ==> spec_truthy(#[trigger] vals[i])
}

/// Some value is true under the truthiness rule.
pub open spec fn any_truthy(vals: Seq<SpecExpr>) -> bool {
    exists|i: int| 0 <= i < vals.len() && spec_truthy(#[trigger] vals[i])
}

/// Apply a primitive operator to evaluated arguments.
pub open spec fn apply_builtin(
    b: BuiltIn,
    vals: Seq<SpecExpr>,
    t: Seq<(SpecQuery, SpecAnswer)>,
) -> SpecOutcome {
    match b {
        BuiltIn::Greater | BuiltIn::Less | BuiltIn::GreaterEqual | BuiltIn::LessEqual => {
            match cmp_all(b, vals, t) {
                Ok(r) => SpecOutcome::Val(bool_expr(r)),
                Err(q) => SpecOutcome::Fail(SpecEvalError::MissingFloat(q)),
            }
        },
        BuiltIn::Plus => {
            if vals.len() == 0 {
                SpecOutcome::Val(SpecExpr::Constant(SpecAtom::Number(seq!['0'])))
            } else if first_non_float(vals) is None {
                match float_fold(BuiltIn::Plus, seq!['0'], vals, t) {
                    Ok(text) => SpecOutcome::Val(SpecExpr::Constant(SpecAtom::Float(text))),
                    Err(q) => SpecOutcome::Fail(SpecEvalError::MissingFloat(q)),
                }
            } else if first_non_int(vals) is None {
                SpecOutcome::Val(SpecExpr::Constant(SpecAtom::Number(canon_of(sum_ints(vals)))))
            } else {
                SpecOutcome::Fail(
                    SpecEvalError::TypeError("+ expects number(s) or float(s), found none"@),
                )
            }
        },
        BuiltIn::Times => {
            if vals.len() == 0 {
                SpecOutcome::Val(SpecExpr::Constant(SpecAtom::Number(seq!['1'])))
            } else if first_non_float(vals) is None {
                match float_fold(BuiltIn::Times, seq!['1'], vals, t) {
                    Ok(text) => SpecOutcome::Val(SpecExpr::Constant(SpecAtom::Float(text))),
                    Err(q) => SpecOutcome::Fail(SpecEvalError::MissingFloat(q)),
                }
            } else if first_non_int(vals) is None {
                SpecOutcome::Val(SpecExpr::Constant(SpecAtom::Number(canon_of(prod_ints(vals)))))
            } else {
                SpecOutcome::Fail(
                    SpecEvalError::TypeError("* expects number(s) or float(s), found none"@),
                )
            }
        },
        BuiltIn::Minus => {
            if vals.len() > 0 && as_float(vals[0]) is Some {
                match first_non_float(vals.drop_first()) {
                    Some(bad) => SpecOutcome::Fail(
                        SpecEvalError::TypeError("Invalid float passed: "@ + print_expr(bad)),
                    ),
                    None => match float_fold(
                        BuiltIn::Minus,
                        as_float(vals[0]).unwrap_or(Seq::empty()),
                        vals.drop_first(),
                        t,
                    ) {
                        Ok(text) => SpecOutcome::Val(SpecExpr::Constant(SpecAtom::Float(text))),
                        Err(q) => SpecOutcome::Fail(SpecEvalError::MissingFloat(q)),
                    },
                }
            } else if vals.len() > 0 && as_int(vals[0]) is Some {
                match first_non_int(vals.drop_first()) {
                    Some(bad) => SpecOutcome::Fail(
                        SpecEvalError::TypeError("Invalid number passed: "@ + print_expr(bad)),
                    ),
                    None => SpecOutcome::Val(
                        SpecExpr::Constant(
                            SpecAtom::Number(
                                canon_of(
                                    fold_sub(
                                        as_int(vals[0]).unwrap_or(0),
                                        vals.drop_first(),
                                    ),
                                ),
                            ),
                        ),
                    ),
                }
            } else {
                SpecOutcome::Fail(
                    SpecEvalError::TypeError(
                        "- expects 1 or more number(s) or float(s), found none"@,
                    ),
                )
            }
        },
        BuiltIn::Divide => {
            if vals.len() > 0 && as_float(vals[0]) is Some {
                match first_non_float(vals.drop_first()) {
                    Some(bad) => SpecOutcome::Fail(
                        SpecEvalError::TypeError("Invalid float passed: "@ + print_expr(bad)),
                    ),
                    None => match float_fold(
                        BuiltIn::Divide,
                        as_float(vals[0]).unwrap_or(Seq::empty()),
                        vals.drop_first(),
                        t,
                    ) {
                        Ok(text) => SpecOutcome::Val(SpecExpr::Constant(SpecAtom::Float(text))),
                        Err(q) => SpecOutcome::Fail(SpecEvalError::MissingFloat(q)),
                    },
                }
            } else if vals.len() > 0 && as_int(vals[0]) is Some {
                match first_non_int(vals.drop_first()) {
                    Some(bad) => SpecOutcome::Fail(
                        SpecEvalError::TypeError("Invalid number passed: "@ + print_expr(bad)),
                    ),
                    None => match fold_div(as_int(vals[0]).unwrap_or(0), vals.drop_first()) {
                        Ok(v) => SpecOutcome::Val(
                            SpecExpr::Constant(SpecAtom::Number(canon_of(v))),
                        ),
                        Err(_) => SpecOutcome::Fail(
                            SpecEvalError::DomainError("Division by zero"@),
                        ),
                    },
                }
            } else {
                SpecOutcome::Fail(
                    SpecEvalError::TypeError(
                        "/ expects 1 or more number(s) or float(s), found none"@,
                    ),
                )
            }
        },
        BuiltIn::Equal => SpecOutcome::Val(bool_expr(eq_all(vals))),
        BuiltIn::NotEqual => SpecOutcome::Val(bool_expr(neq_all(vals))),
        BuiltIn::And => SpecOutcome::Val(bool_expr(all_truthy(vals))),
        BuiltIn::Or => SpecOutcome::Val(bool_expr(any_truthy(vals))),
        BuiltIn::Not => {
            if vals.len() == 1 {
                SpecOutcome::Val(bool_expr(!spec_truthy(vals[0])))
            } else {
                SpecOutcome::Fail(SpecEvalError::Arity(1, vals.len() as nat))
            }
        },
    }
}

/// The list primitives `car` and `cdr`, applied to evaluated arguments.
pub open spec fn std_call(name: Seq<char>, vals: Seq<SpecExpr>) -> SpecOutcome {
    if name == "car"@ && vals.len() == 1 {
        match vals[0] {
            SpecExpr::Quote(items) => if items.len() == 0 {
                SpecOutcome::Val(SpecExpr::Nil)
            } else {
                SpecOutcome::Val(items[0])
            },
            SpecExpr::Nil => SpecOutcome::Val(SpecExpr::Nil),
            _ => SpecOutcome::Fail(SpecEvalError::TypeError("No valid functions found"@)),
        }
    } else if name == "cdr"@ && vals.len() == 1 {
        match vals[0] {
            SpecExpr::Quote(items) => if items.len() <= 1 {
                SpecOutcome::Val(SpecExpr::Nil)
            } else if items.len() == 2 {
                SpecOutcome::Val(items[1])
            } else {
                SpecOutcome::Val(SpecExpr::Quote(items.skip(1)))
            },
            SpecExpr::Nil => SpecOutcome::Val(SpecExpr::Nil),
            _ => SpecOutcome::Fail(SpecEvalError::TypeError("No valid functions found"@)),
        }
    } else {
        SpecOutcome::Fail(SpecEvalError::TypeError("No valid functions found"@))
    }
}

/// The position of the first parameter (among those that have an argument)
/// that structurally equals `e`.
pub open spec fn first_pos(params: Seq<SpecExpr>, e: SpecExpr) -> Option<nat>
    decreases params.len(),
{
    if params.len() == 0 {
        None
    } else if params[0] == e {
        Some(0)
    } else {
        match first_pos(params.drop_first(), e) {
            Some(i) => Some(i + 1),
            None => None,
        }
    }
}

/// Substitute arguments for parameters in a body, marking the parameters
/// that were hit. Only calls and `if`s are descended into; a sub-expression
/// equal to a parameter with an argument becomes that argument.
pub open spec fn subst(
    e: SpecExpr,
    params: Seq<SpecExpr>,
    args: Seq<SpecExpr>,
    marked: Seq<bool>,
) -> (SpecExpr, Seq<bool>)
    decreases e,
{
    match first_pos(params.take(args.len() as int), e) {
        Some(i) => (args[i as int], marked.update(i as int, true)),
        None => match e {
            SpecExpr::Call(h, tail) => {
                let (h2, m2) = subst(*h, params, args, marked);
                let (t2, m3) = subst_list(tail, params, args, m2);
                (SpecExpr::Call(Box::new(h2), t2), m3)
            },
            SpecExpr::If(p, th, o) => {
                let (p2, m2) = subst(*p, params, args, marked);
                let (t2, m3) = subst(*th, params, args, m2);
                match o {
                    Some(e2) => {
                        let (o2, m4) = subst(*e2, params, args, m3);
                        (SpecExpr::If(Box::new(p2), Box::new(t2), Some(Box::new(o2))), m4)
                    },
                    None => (SpecExpr::If(Box::new(p2), Box::new(t2), None), m3),
                }
            },
            _ => (e, marked),
        },
    }
}

/// Substitute through a run of expressions, threading the marks.
pub open spec fn subst_list(
    es: Seq<SpecExpr>,
    params: Seq<SpecExpr>,
    args: Seq<SpecExpr>,
    marked: Seq<bool>,
) -> (Seq<SpecExpr>, Seq<bool>)
    decreases es,
{
    if es.len() == 0 {
        (Seq::empty(), marked)
    } else {
        let (e2, m2) = subst(es[0], params, args, marked);
        let (rest, m3) = subst_list(es.drop_first(), params, args, m2);
        (seq![e2] + rest, m3)
    }
}

/// The parameters that were not hit by substitution.
pub open spec fn keep_unmarked(params: Seq<SpecExpr>, marked: Seq<bool>) -> Seq<SpecExpr>
    decreases params.len(),
{
    if params.len() == 0 {
        Seq::empty()
    } else if 0 < marked.len() && marked[0] {
        keep_unmarked(params.drop_first(), marked.drop_first())
    } else {
        seq![params[0]] + keep_unmarked(params.drop_first(), marked.drop_first())
    }
}

/// Evaluate one expression: the result, and the environment left behind.
///
/// `fuel` bounds the depth of nested evaluations and the re-entries taken
/// for `if` branches and fully applied calls; with no fuel the result is
/// `Exhausted`. The budget the library passes is far beyond any machine.
pub open spec fn eval_spec(
    fuel: nat,
    env: Map<Seq<char>, SpecExpr>,
    t: Seq<(SpecQuery, SpecAnswer)>,
    e: SpecExpr,
) -> SpecEvalResult
    decreases fuel, e,
{
    if fuel == 0 {
        SpecEvalResult { outcome: SpecOutcome::Fail(SpecEvalError::Exhausted), env }
    } else {
        let f = (fuel - 1) as nat;
        match e {
            SpecExpr::Constant(SpecAtom::Symbol(name)) => {
                if env.contains_key(name) {
                    SpecEvalResult { outcome: SpecOutcome::Val(env[name]), env }
                } else {
                    SpecEvalResult {
                        outcome: SpecOutcome::Fail(SpecEvalError::UnboundSymbol(name)),
                        env,
                    }
                }
            },
            SpecExpr::Constant(_) => SpecEvalResult { outcome: SpecOutcome::Val(e), env },
            SpecExpr::Quote(_) => SpecEvalResult { outcome: SpecOutcome::Val(e), env },
            SpecExpr::Let(bindings) => eval_let(f, env, t, bindings),
            SpecExpr::If(p, th, o) => {
                let pr = eval_spec(f, env, t, *p);
                match pr.outcome {
                    SpecOutcome::Fail(_) => pr,
                    SpecOutcome::Val(v) => {
                        if spec_truthy(v) {
                            eval_spec(f, pr.env, t, *th)
                        } else {
                            match o {
                                Some(e2) => eval_spec(f, pr.env, t, *e2),
                                None => SpecEvalResult {
                                    outcome: SpecOutcome::Fail(
                                        SpecEvalError::NoBranch(
                                            "No branches of predicate ran: "@ + print_expr(v),
                                        ),
                                    ),
                                    env: pr.env,
                                },
                            }
                        }
                    },
                }
            },
            SpecExpr::Call(h, tail) => {
                if (*h) matches SpecExpr::Constant(SpecAtom::Symbol(name)) && !env.contains_key(
                    name,
                ) && (name == "car"@ || name == "cdr"@) {
                    let name = (*h)->Constant_0->Symbol_0;
                    match eval_args(f, env, t, tail) {
                        Ok((vals, env2)) => SpecEvalResult {
                            outcome: std_call(name, vals),
                            env: env2,
                        },
                        Err((err, env2)) => SpecEvalResult {
                            outcome: SpecOutcome::Fail(err),
                            env: env2,
                        },
                    }
                } else {
                    let hr = eval_spec(f, env, t, *h);
                    match hr.outcome {
                        SpecOutcome::Fail(_) => hr,
                        SpecOutcome::Val(hv) => match eval_args(f, hr.env, t, tail) {
                            Err((err, env2)) => SpecEvalResult {
                                outcome: SpecOutcome::Fail(err),
                                env: env2,
                            },
                            Ok((vals, env2)) => match hv {
                                SpecExpr::Function(params, body) => {
                                    if vals.len() > params.len() {
                                        SpecEvalResult {
                                            outcome: SpecOutcome::Fail(
                                                SpecEvalError::Arity(params.len(), vals.len()),
                                            ),
                                            env: env2,
                                        }
                                    } else {
                                        let init = Seq::new(params.len(), |i: int| false);
                                        let (body2, marked) = subst(*body, params, vals, init);
                                        let rest = keep_unmarked(params, marked);
                                        if rest.len() == 0 {
                                            eval_spec(f, env2, t, body2)
                                        } else {
                                            SpecEvalResult {
                                                outcome: SpecOutcome::Val(
                                                    SpecExpr::Function(rest, Box::new(body2)),
                                                ),
                                                env: env2,
                                            }
                                        }
                                    }
                                },
                                SpecExpr::Constant(SpecAtom::BuiltIn(b)) => SpecEvalResult {
                                    outcome: apply_builtin(b, vals, t),
                                    env: env2,
                                },
                                _ => SpecEvalResult { outcome: SpecOutcome::Val(hv), env: env2 },
                            },
                        },
                    }
                }
            },
            _ => SpecEvalResult { outcome: SpecOutcome::Val(e), env },
        }
    }
}

/// Evaluate the bindings of a `let` in order; each value is bound before the
/// next is evaluated, and the `let` itself yields `nil`.
pub open spec fn eval_let(
    fuel: nat,
    env: Map<Seq<char>, SpecExpr>,
    t: Seq<(SpecQuery, SpecAnswer)>,
    bindings: Seq<(SpecAtom, SpecExpr)>,
) -> SpecEvalResult
    decreases fuel, bindings,
{
    if bindings.len() == 0 {
        SpecEvalResult { outcome: SpecOutcome::Val(SpecExpr::Nil), env }
    } else {
        match bindings[0].0 {
            SpecAtom::Symbol(name) => {
                let r = eval_spec(fuel, env, t, bindings[0].1);
                match r.outcome {
                    SpecOutcome::Fail(_) => r,
                    SpecOutcome::Val(v) => eval_let(
                        fuel,
                        r.env.insert(name, v),
                        t,
                        bindings.drop_first(),
                    ),
                }
            },
            _ => SpecEvalResult {
                outcome: SpecOutcome::Fail(
                    SpecEvalError::TypeError(
                        "Expected symbol, found following: "@ + crate::print::print_atom(
                            bindings[0].0,
                        ),
                    ),
                ),
                env,
            },
        }
    }
}

/// Evaluate call arguments left to right; the first failure stops the run
/// and keeps the environment it left behind.
pub open spec fn eval_args(
    fuel: nat,
    env: Map<Seq<char>, SpecExpr>,
    t: Seq<(SpecQuery, SpecAnswer)>,
    args: Seq<SpecExpr>,
) -> Result<
    (Seq<SpecExpr>, Map<Seq<char>, SpecExpr>),
    (SpecEvalError, Map<Seq<char>, SpecExpr>),
>
    decreases fuel, args,
{
    if args.len() == 0 {
        Ok((Seq::empty(), env))
    } else {
        let r = eval_spec(fuel, env, t, args[0]);
        match r.outcome {
            SpecOutcome::Fail(err) => Err((err, r.env)),
            SpecOutcome::Val(v) => match eval_args(fuel, r.env, t, args.drop_first()) {
                Ok((vals, env2)) => Ok((seq![v] + vals, env2)),
                Err(e2) => Err(e2),
            },
        }
    }
}

/// Decide whether a character is a decimal digit.
fn is_digit_exec(c: char) -> (r: bool)
    ensures
        r == crate::bignum::is_digit(c),
{
    let u = c as u32;
    u >= 48 && u <= 57
}

/// Decide whether a text is the canonical decimal form of an integer.
#[verifier::loop_isolation(false)]
pub fn check_canonical(s: &String) -> (r: bool)
    ensures
        r == canonical(s@),
{
    let v = crate::text::chars_of(s.as_str());
    let n = v.len();
    if n == 0 {
        return false;
    }
    if v[0] == '-' {
        if n < 2 {
            return false;
        }
        if v[1] == '0' {
            return false;
        }
        for i in 1..n
            invariant
                n == v@.len(),
                v@ == s@,
                forall|j: int| 1 <= j < i ==> crate::bignum::is_digit(#[trigger] v@[j]),
        {
            let c = v[i];
            if !is_digit_exec(c) {
                proof {
                    assert(s@.skip(1)[i - 1] == c);
                    assert(!crate::bignum::is_digit(c));
                    assert(!crate::bignum::all_digits(s@.skip(1)));
                }
                return false;
            }
        }
        proof {
            assert(forall|j: int|
                0 <= j < s@.skip(1).len() ==> crate::bignum::is_digit(#[trigger] s@.skip(1)[j]))
                by {
                assert(forall|j: int| 0 <= j < s@.skip(1).len() ==> s@.skip(1)[j] == v@[j + 1]);
            }
        }
        true
    } else {
        if n >= 2 && v[0] == '0' {
            return false;
        }
        for i in 0..n
            invariant
                n == v@.len(),
                v@ == s@,
                forall|j: int| 0 <= j < i ==> crate::bignum::is_digit(#[trigger] v@[j]),
        {
            let c = v[i];
            if !is_digit_exec(c) {
                proof {
                    assert(s@[i as int] == c);
                    assert(!crate::bignum::is_digit(c));
                    assert(!crate::bignum::all_digits(s@));
                }
                return false;
            }
        }
        true
    }
}

/// Build a message: a fixed prefix and the printed offender.
fn msg_expr(prefix: &str, e: &Expr) -> (r: String)
    ensures
        r@ == prefix@ + print_expr(e@),
{
    let mut out = crate::text::chars_of(prefix);
    crate::print::write_expr(e, &mut out);
    crate::text::string_of(&out)
}

/// Build a message: a fixed prefix and the printed atom.
fn msg_atom(prefix: &str, a: &Atom) -> (r: String)
    ensures
        r@ == prefix@ + crate::print::print_atom(a@),
{
    let mut out = crate::text::chars_of(prefix);
    crate::print::write_atom(a, &mut out);
    crate::text::string_of(&out)
}

/// No entry of `s` bears the name: the environment does not bind it.
proof fn lemma_env_absent(s: Seq<(String, Expr)>, k: Seq<char>)
    requires
        forall|j: int| 0 <= j < s.len() ==> (#[trigger] s[j]).0@ != k,
    ensures
        !env_view(s).contains_key(k),
    decreases s.len(),
{
    if s.len() > 0 {
        assert(forall|j: int| 0 <= j < s.len() - 1 ==> s.drop_last()[j] == s[j]);
        lemma_env_absent(s.drop_last(), k);
    }
}

/// The last entry bearing a name decides what the environment binds it to.
proof fn lemma_env_at(s: Seq<(String, Expr)>, k: Seq<char>, j: int)
    requires
        0 <= j < s.len(),
        s[j].0@ == k,
        forall|l: int| j < l < s.len() ==> (#[trigger] s[l]).0@ != k,
    ensures
        env_view(s).contains_key(k),
        env_view(s)[k] == view_expr(s[j].1),
    decreases s.len(),
{
    if j == s.len() - 1 {
        assert(s.last() == s[j]);
    } else {
        assert(forall|l: int| 0 <= l < s.len() - 1 ==> s.drop_last()[l] == s[l]);
        lemma_env_at(s.drop_last(), k, j);
        assert(s.last().0@ != k);
    }
}

/// Look a name up; the latest binding wins.
fn env_lookup(env: &Vec<(String, Expr)>, name: &String) -> (r: Option<Expr>)
    ensures
        match r {
            Some(v) => env_view(env@).contains_key(name@) && v@ == env_view(env@)[name@],
            None => !env_view(env@).contains_key(name@),
        },
{
    let mut i = env.len();
    while i > 0
        invariant
            i <= env@.len(),
            forall|l: int| i <= l < env@.len() ==> (#[trigger] env@[l]).0@ != name@,
        decreases i,
    {
        i = i - 1;
        if env[i].0 == *name {
            let v = env[i].1.clone();
            proof {
                lemma_env_at(env@, name@, i as int);
            }
            return Some(v);
        }
    }
    proof {
        lemma_env_absent(env@, name@);
    }
    None
}

/// Whether a name is bound.
fn env_contains(env: &Vec<(String, Expr)>, name: &str) -> (r: bool)
    ensures
        r == env_view(env@).contains_key(name@),
{
    let owned = name.to_owned();
    match env_lookup(env, &owned) {
        Some(_) => true,
        None => false,
    }
}

/// Bind a name; a later binding shadows an earlier one.
fn env_insert(env: &mut Vec<(String, Expr)>, name: String, v: Expr)
    ensures
        env_view(final(env)@) == env_view(old(env)@).insert(name@, v@),
{
    env.push((name, v));
    proof {
        assert(env@.drop_last() =~= old(env)@);
        assert(env@.last() == (name, v));
    }
}

/// An interpreter session: the top-level environment, and the host's answers
/// to double operations.
#[derive(Debug)]
pub struct Context {
    environment: Vec<(String, Expr)>,
    floats: FloatTable,
}

impl Context {
    /// The environment: what each bound name stands for.
    pub closed spec fn env(&self) -> Map<Seq<char>, SpecExpr> {
        env_view(self.environment@)
    }

    /// The host's answered double operations.
    pub closed spec fn table(&self) -> Seq<(SpecQuery, SpecAnswer)> {
        self.floats@
    }

    /// An empty session.
    pub fn new() -> (r: Context)
        ensures
            r.env() =~= Map::<Seq<char>, SpecExpr>::empty(),
            r.table() =~= Seq::<(SpecQuery, SpecAnswer)>::empty(),
    {
        Context { environment: Vec::new(), floats: FloatTable::new() }
    }

    /// Record the host's answer to a double operation.
    pub fn answer_float(&mut self, q: FloatQuery, a: crate::floats::FloatAnswer)
        ensures
            final(self).env() == old(self).env(),
            final(self).table() =~= old(self).table().push((q@, a@)),
    {
        self.floats.answer(q, a);
    }

    /// A snapshot of the session, for a host that retries evaluation after
    /// answering a double operation.
    pub fn duplicate(&self) -> (r: Context)
        ensures
            r.env() == self.env(),
            r.table() == self.table(),
    {
        let mut environment: Vec<(String, Expr)> = Vec::new();
        let n = self.environment.len();
        for i in 0..n
            invariant
                n == self.environment@.len(),
                environment@.len() == i,
                forall|j: int|
                    0 <= j < i ==> (#[trigger] environment@[j]).0@ == self.environment@[j].0@
                        && view_expr(environment@[j].1) == view_expr(self.environment@[j].1),
        {
            let name = self.environment[i].0.clone();
            let value = self.environment[i].1.clone();
            environment.push((name, value));
        }
        proof {
            lemma_env_view_congruent(environment@, self.environment@);
        }
        Context { environment, floats: self.floats.duplicate() }
    }
}

impl Default for Context {
    /// An empty session.
    fn default() -> (r: Context)
        ensures
            r.env() =~= Map::<Seq<char>, SpecExpr>::empty(),
            r.table() =~= Seq::<(SpecQuery, SpecAnswer)>::empty(),
    {
        Context::new()
    }
}

/// Entry runs with equal names and equal shapes stand for one environment.
proof fn lemma_env_view_congruent(a: Seq<(String, Expr)>, b: Seq<(String, Expr)>)
    requires
        a.len() == b.len(),
        forall|j: int|
            0 <= j < a.len() ==> (#[trigger] a[j]).0@ == b[j].0@ && view_expr(a[j].1) == view_expr(
                b[j].1,
            ),
    ensures
        env_view(a) == env_view(b),
    decreases a.len(),
{
    if a.len() > 0 {
        assert(forall|j: int| 0 <= j < a.len() - 1 ==> a.drop_last()[j] == a[j]);
        assert(forall|j: int| 0 <= j < b.len() - 1 ==> b.drop_last()[j] == b[j]);
        lemma_env_view_congruent(a.drop_last(), b.drop_last());
        assert(a.last() == a[a.len() - 1]);
        assert(b.last() == b[b.len() - 1]);
    }
}

/// A run with no non-double has every item a double, and conversely.
proof fn lemma_non_float_none(s: Seq<SpecExpr>)
    ensures
        (first_non_float(s) is None) <==> (forall|i: int|
            0 <= i < s.len() ==> as_float(#[trigger] s[i]) is Some),
    decreases s.len(),
{
    if s.len() > 0 {
        lemma_non_float_none(s.drop_first());
        assert(forall|i: int| 0 <= i < s.len() - 1 ==> s.drop_first()[i] == s[i + 1]);
        if first_non_float(s) is None {
            assert forall|i: int| 0 <= i < s.len() implies as_float(#[trigger] s[i]) is Some by {
                if i > 0 {
                    assert(as_float(s.drop_first()[i - 1]) is Some);
                }
            }
        }
        if forall|i: int| 0 <= i < s.len() ==> as_float(#[trigger] s[i]) is Some {
            assert forall|i: int|
                0 <= i < s.drop_first().len() implies as_float(
                #[trigger] s.drop_first()[i],
            ) is Some by {
                assert(s.drop_first()[i] == s[i + 1]);
                assert(as_float(s[i + 1]) is Some);
            }
            assert(first_non_float(s.drop_first()) is None);
            assert(as_float(s[0]) is Some);
        }
    }
}

/// A run with no non-integer has every item an integer, and conversely.
proof fn lemma_non_int_none(s: Seq<SpecExpr>)
    ensures
        (first_non_int(s) is None) <==> (forall|i: int|
            0 <= i < s.len() ==> as_int(#[trigger] s[i]) is Some),
    decreases s.len(),
{
    if s.len() > 0 {
        lemma_non_int_none(s.drop_first());
        assert(forall|i: int| 0 <= i < s.len() - 1 ==> s.drop_first()[i] == s[i + 1]);
        if first_non_int(s) is None {
            assert forall|i: int| 0 <= i < s.len() implies as_int(#[trigger] s[i]) is Some by {
                if i > 0 {
                    assert(as_int(s.drop_first()[i - 1]) is Some);
                }
            }
        }
        if forall|i: int| 0 <= i < s.len() ==> as_int(#[trigger] s[i]) is Some {
            assert forall|i: int|
                0 <= i < s.drop_first().len() implies as_int(
                #[trigger] s.drop_first()[i],
            ) is Some by {
                assert(s.drop_first()[i] == s[i + 1]);
                assert(as_int(s[i + 1]) is Some);
            }
            assert(first_non_int(s.drop_first()) is None);
            assert(as_int(s[0]) is Some);
        }
    }
}

/// Find the first value from `start` on that is not a double.
#[verifier::loop_isolation(false)]
fn find_non_float(vals: &Vec<Expr>, start: usize) -> (r: Option<usize>)
    requires
        start <= vals@.len(),
    ensures
        ({
            let s = view_exprs(vals@).skip(start as int);
            match r {
                Some(i) => start <= i < vals@.len() && first_non_float(s) == Some(
                    view_exprs(vals@)[i as int],
                ),
                None => first_non_float(s) is None,
            }
        }),
{
    proof {
        view_exprs_len(vals@);
    }
    let n = vals.len();
    let ghost w = view_exprs(vals@);
    for i in start..n
        invariant
            first_non_float(w.skip(start as int)) == first_non_float(w.skip(i as int)),
        decreases n - i,
    {
        proof {
            view_exprs_index(vals@, i as int);
            assert(w.skip(i as int)[0] == w[i as int]);
            assert(w.skip(i as int).drop_first() =~= w.skip(i as int + 1));
        }
        let is_float = match &vals[i] {
            Expr::Constant(Atom::Float(_)) => true,
            _ => false,
        };
        if !is_float {
            proof {
                assert(as_float(w[i as int]) is None);
            }
            return Some(i);
        }
    }
    proof {
        assert(w.skip(n as int).len() == 0);
    }
    None
}

/// Find the first value from `start` on that is not an integer in canonical
/// form.
#[verifier::loop_isolation(false)]
fn find_non_int(vals: &Vec<Expr>, start: usize) -> (r: Option<usize>)
    requires
        start <= vals@.len(),
    ensures
        ({
            let s = view_exprs(vals@).skip(start as int);
            match r {
                Some(i) => start <= i < vals@.len() && first_non_int(s) == Some(
                    view_exprs(vals@)[i as int],
                ),
                None => first_non_int(s) is None,
            }
        }),
{
    proof {
        view_exprs_len(vals@);
    }
    let n = vals.len();
    let ghost w = view_exprs(vals@);
    for i in start..n
        invariant
            first_non_int(w.skip(start as int)) == first_non_int(w.skip(i as int)),
        decreases n - i,
    {
        proof {
            view_exprs_index(vals@, i as int);
            assert(w.skip(i as int)[0] == w[i as int]);
            assert(w.skip(i as int).drop_first() =~= w.skip(i as int + 1));
        }
        let is_int = match &vals[i] {
            Expr::Constant(Atom::Number(t)) => check_canonical(t),
            _ => false,
        };
        if !is_int {
            proof {
                assert(as_int(w[i as int]) is None);
            }
            return Some(i);
        }
    }
    proof {
        assert(w.skip(n as int).len() == 0);
    }
    None
}

/// The text "0".
fn zero_string() -> (r: String)
    ensures
        canonical(r@),
        int_of(r@) == 0,
        r@ == seq!['0'],
{
    let z = "0";
    proof {
        reveal_strlit("0");
        assert(z@ =~= seq!['0']);
        let s: Seq<char> = seq!['0'];
        assert(crate::bignum::all_digits(s)) by {
            assert(s[0] == '0');
        }
        assert(s.drop_last() =~= Seq::<char>::empty());
        assert(crate::bignum::digits_val(Seq::<char>::empty()) == 0);
        assert(s.last() == '0');
        assert(crate::bignum::digits_val(s) == 0);
    }
    z.to_owned()
}

/// The text "1".
fn one_string() -> (r: String)
    ensures
        canonical(r@),
        int_of(r@) == 1,
        r@ == seq!['1'],
{
    let o = "1";
    proof {
        reveal_strlit("1");
        assert(o@ =~= seq!['1']);
        let s: Seq<char> = seq!['1'];
        assert(crate::bignum::all_digits(s)) by {
            assert(s[0] == '1');
        }
        assert(s.drop_last() =~= Seq::<char>::empty());
        assert(crate::bignum::digits_val(Seq::<char>::empty()) == 0);
        assert(s.last() == '1');
        assert(crate::bignum::digits_val(s) == 1);
    }
    o.to_owned()
}

/// Fold a double operation over the values from `start` on, asking the
/// table for every step.
#[verifier::loop_isolation(false)]
fn float_fold_exec(
    op: BuiltIn,
    acc0: String,
    vals: &Vec<Expr>,
    start: usize,
    table: &FloatTable,
) -> (r: Result<String, EvalError>)
    requires
        start <= vals@.len(),
        forall|j: int|
            start <= j < vals@.len() ==> as_float(#[trigger] view_exprs(vals@)[j]) is Some,
    ensures
        ({
            let f = float_fold(op, acc0@, view_exprs(vals@).skip(start as int), table@);
            match r {
                Ok(text) => f == Ok::<Seq<char>, SpecQuery>(text@),
                Err(e) => e matches EvalError::MissingFloat(q) && f == Err::<
                    Seq<char>,
                    SpecQuery,
                >(q@),
            }
        }),
{
    proof {
        view_exprs_len(vals@);
    }
    let n = vals.len();
    let ghost w = view_exprs(vals@);
    let mut acc = acc0;
    for i in start..n
        invariant
            float_fold(op, acc0@, w.skip(start as int), table@) == float_fold(
                op,
                acc@,
                w.skip(i as int),
                table@,
            ),
        decreases n - i,
    {
        proof {
            view_exprs_index(vals@, i as int);
            assert(w.skip(i as int)[0] == w[i as int]);
            assert(w.skip(i as int).drop_first() =~= w.skip(i as int + 1));
        }
        let text = match &vals[i] {
            Expr::Constant(Atom::Float(t)) => t,
            _ => {
                proof {
                    assert(false);
                }
                return Err(EvalError::Exhausted);
            },
        };
        let q = FloatQuery::Bin(op, acc.clone(), text.clone());
        match table.find(&q) {
            Some(crate::floats::FloatAnswer::Text(next)) => {
                acc = next.clone();
            },
            _ => {
                return Err(EvalError::MissingFloat(q));
            },
        }
    }
    proof {
        assert(w.skip(n as int).len() == 0);
    }
    Ok(acc)
}

/// Sum the integer values; the empty run sums to zero.
#[verifier::loop_isolation(false)]
fn int_sum_exec(vals: &Vec<Expr>) -> (r: String)
    requires
        forall|j: int| 0 <= j < vals@.len() ==> as_int(#[trigger] view_exprs(vals@)[j]) is Some,
    ensures
        canonical(r@),
        int_of(r@) == sum_ints(view_exprs(vals@)),
{
    proof {
        view_exprs_len(vals@);
    }
    let n = vals.len();
    let ghost w = view_exprs(vals@);
    let mut acc = zero_string();
    proof {
        assert(w.take(0) =~= Seq::<SpecExpr>::empty());
    }
    for i in 0..n
        invariant
            canonical(acc@),
            int_of(acc@) == sum_ints(w.take(i as int)),
        decreases n - i,
    {
        proof {
            view_exprs_index(vals@, i as int);
        }
        let text = match &vals[i] {
            Expr::Constant(Atom::Number(t)) => t,
            _ => {
                proof {
                    assert(false);
                }
                return acc;
            },
        };
        acc = crate::bignum::big_add(acc.as_str(), text.as_str());
        proof {
            assert(w.take(i as int + 1).drop_last() =~= w.take(i as int));
            assert(w.take(i as int + 1).last() == w[i as int]);
        }
    }
    proof {
        assert(w.take(n as int) =~= w);
    }
    acc
}

/// Multiply the integer values; the empty run multiplies to one.
#[verifier::loop_isolation(false)]
fn int_prod_exec(vals: &Vec<Expr>) -> (r: String)
    requires
        forall|j: int| 0 <= j < vals@.len() ==> as_int(#[trigger] view_exprs(vals@)[j]) is Some,
    ensures
        canonical(r@),
        int_of(r@) == prod_ints(view_exprs(vals@)),
{
    proof {
        view_exprs_len(vals@);
    }
    let n = vals.len();
    let ghost w = view_exprs(vals@);
    let mut acc = one_string();
    proof {
        assert(w.take(0) =~= Seq::<SpecExpr>::empty());
    }
    for i in 0..n
        invariant
            canonical(acc@),
            int_of(acc@) == prod_ints(w.take(i as int)),
        decreases n - i,
    {
        proof {
            view_exprs_index(vals@, i as int);
        }
        let text = match &vals[i] {
            Expr::Constant(Atom::Number(t)) => t,
            _ => {
                proof {
                    assert(false);
                }
                return acc;
            },
        };
        acc = crate::bignum::big_mul(acc.as_str(), text.as_str());
        proof {
            assert(w.take(i as int + 1).drop_last() =~= w.take(i as int));
            assert(w.take(i as int + 1).last() == w[i as int]);
        }
    }
    proof {
        assert(w.take(n as int) =~= w);
    }
    acc
}

/// Fold subtraction over the integer values from `start` on.
#[verifier::loop_isolation(false)]
fn int_sub_exec(acc0: String, vals: &Vec<Expr>, start: usize) -> (r: String)
    requires
        canonical(acc0@),
        start <= vals@.len(),
        forall|j: int|
            start <= j < vals@.len() ==> as_int(#[trigger] view_exprs(vals@)[j]) is Some,
    ensures
        canonical(r@),
        int_of(r@) == fold_sub(int_of(acc0@), view_exprs(vals@).skip(start as int)),
{
    proof {
        view_exprs_len(vals@);
    }
    let n = vals.len();
    let ghost w = view_exprs(vals@);
    let mut acc = acc0;
    for i in start..n
        invariant
            canonical(acc@),
            fold_sub(int_of(acc0@), w.skip(start as int)) == fold_sub(
                int_of(acc@),
                w.skip(i as int),
            ),
        decreases n - i,
    {
        proof {
            view_exprs_index(vals@, i as int);
            assert(w.skip(i as int)[0] == w[i as int]);
            assert(w.skip(i as int).drop_first() =~= w.skip(i as int + 1));
        }
        let text = match &vals[i] {
            Expr::Constant(Atom::Number(t)) => t,
            _ => {
                proof {
                    assert(false);
                }
                return acc;
            },
        };
        acc = crate::bignum::big_sub(acc.as_str(), text.as_str());
    }
    proof {
        assert(w.skip(n as int).len() == 0);
    }
    acc
}

/// Fold truncating division over the integer values from `start` on; a zero
/// divisor is a domain error.
#[verifier::loop_isolation(false)]
fn int_div_exec(acc0: String, vals: &Vec<Expr>, start: usize) -> (r: Result<String, EvalError>)
    requires
        canonical(acc0@),
        start <= vals@.len(),
        forall|j: int|
            start <= j < vals@.len() ==> as_int(#[trigger] view_exprs(vals@)[j]) is Some,
    ensures
        ({
            let f = fold_div(int_of(acc0@), view_exprs(vals@).skip(start as int));
            match r {
                Ok(text) => canonical(text@) && f == Ok::<int, ()>(int_of(text@)),
                Err(e) => f is Err && e@ == SpecEvalError::DomainError("Division by zero"@),
            }
        }),
{
    proof {
        view_exprs_len(vals@);
    }
    let n = vals.len();
    let ghost w = view_exprs(vals@);
    let mut acc = acc0;
    for i in start..n
        invariant
            canonical(acc@),
            fold_div(int_of(acc0@), w.skip(start as int)) == fold_div(
                int_of(acc@),
                w.skip(i as int),
            ),
        decreases n - i,
    {
        proof {
            view_exprs_index(vals@, i as int);
            assert(w.skip(i as int)[0] == w[i as int]);
            assert(w.skip(i as int).drop_first() =~= w.skip(i as int + 1));
        }
        let text = match &vals[i] {
            Expr::Constant(Atom::Number(t)) => t,
            _ => {
                proof {
                    assert(false);
                }
                return Ok(acc);
            },
        };
        let zero = zero_string();
        if *text == zero {
            proof {
                crate::bignum::lemma_canonical_zero(text@);
            }
            return Err(EvalError::DomainError(String::from_str("Division by zero")));
        }
        proof {
            crate::bignum::lemma_canonical_zero(text@);
        }
        acc = crate::bignum::big_div(acc.as_str(), text.as_str());
    }
    proof {
        assert(w.skip(n as int).len() == 0);
    }
    Ok(acc)
}

/// One ordered comparison of two evaluated values.
fn pair_cmp_exec(op: BuiltIn, a: &Expr, b: &Expr, table: &FloatTable) -> (r: Result<
    bool,
    EvalError,
>)
    ensures
        ({
            let p = pair_cmp(op, a@, b@, table@);
            match r {
                Ok(t) => p == Ok::<bool, SpecQuery>(t),
                Err(e) => e matches EvalError::MissingFloat(q) && p == Err::<bool, SpecQuery>(q@),
            }
        }),
{
    let a_int = match a {
        Expr::Constant(Atom::Number(t)) => check_canonical(t),
        _ => false,
    };
    let b_int = match b {
        Expr::Constant(Atom::Number(t)) => check_canonical(t),
        _ => false,
    };
    if a_int && b_int {
        let x = match a {
            Expr::Constant(Atom::Number(t)) => t,
            _ => {
                proof {
                    assert(false);
                }
                return Ok(false);
            },
        };
        let y = match b {
            Expr::Constant(Atom::Number(t)) => t,
            _ => {
                proof {
                    assert(false);
                }
                return Ok(false);
            },
        };
        let t = match op {
            BuiltIn::Greater => crate::bignum::big_lt(y.as_str(), x.as_str()),
            BuiltIn::Less => crate::bignum::big_lt(x.as_str(), y.as_str()),
            BuiltIn::GreaterEqual => crate::bignum::big_le(y.as_str(), x.as_str()),
            BuiltIn::LessEqual => crate::bignum::big_le(x.as_str(), y.as_str()),
            _ => false,
        };
        Ok(t)
    } else {
        let a_text = match a {
            Expr::Constant(Atom::Float(t)) => Some(t),
            _ => None,
        };
        let b_text = match b {
            Expr::Constant(Atom::Float(t)) => Some(t),
            _ => None,
        };
        match (a_text, b_text) {
            (Some(x), Some(y)) => {
                let q = FloatQuery::Cmp(op, x.clone(), y.clone());
                match table.find(&q) {
                    Some(crate::floats::FloatAnswer::Truth(t)) => Ok(*t),
                    _ => Err(EvalError::MissingFloat(q)),
                }
            },
            _ => Ok(false),
        }
    }
}

/// All adjacent pairs satisfy the comparison.
#[verifier::loop_isolation(false)]
fn cmp_all_exec(op: BuiltIn, vals: &Vec<Expr>, table: &FloatTable) -> (r: Result<bool, EvalError>)
    ensures
        ({
            let p = cmp_all(op, view_exprs(vals@), table@);
            match r {
                Ok(t) => p == Ok::<bool, SpecQuery>(t),
                Err(e) => e matches EvalError::MissingFloat(q) && p == Err::<bool, SpecQuery>(q@),
            }
        }),
{
    proof {
        view_exprs_len(vals@);
    }
    let n = vals.len();
    let ghost w = view_exprs(vals@);
    if n < 2 {
        return Ok(true);
    }
    proof {
        assert(w.skip(0) =~= w);
    }
    for i in 0..n - 1
        invariant
            cmp_all(op, w, table@) == cmp_all(op, w.skip(i as int), table@),
        decreases n - i,
    {
        proof {
            view_exprs_index(vals@, i as int);
            view_exprs_index(vals@, i as int + 1);
            assert(w.skip(i as int)[0] == w[i as int]);
            assert(w.skip(i as int)[1] == w[i as int + 1]);
            assert(w.skip(i as int).drop_first() =~= w.skip(i as int + 1));
        }
        match pair_cmp_exec(op, &vals[i], &vals[i + 1], table) {
            Ok(true) => {},
            Ok(false) => {
                return Ok(false);
            },
            Err(e) => {
                return Err(e);
            },
        }
    }
    proof {
        assert(w.skip(n as int - 1).len() == 1);
    }
    Ok(true)
}

/// All adjacent pairs are structurally equal.
#[verifier::loop_isolation(false)]
fn eq_all_exec(vals: &Vec<Expr>) -> (r: bool)
    ensures
        r == eq_all(view_exprs(vals@)),
{
    proof {
        view_exprs_len(vals@);
    }
    let n = vals.len();
    let ghost w = view_exprs(vals@);
    if n < 2 {
        return true;
    }
    for i in 0..n - 1
        invariant
            forall|j: int| 0 <= j < i ==> #[trigger] w[j] == w[j + 1],
        decreases n - i,
    {
        proof {
            view_exprs_index(vals@, i as int);
            view_exprs_index(vals@, i as int + 1);
        }
        if !expr_eq(&vals[i], &vals[i + 1]) {
            return false;
        }
    }
    true
}

/// All adjacent pairs are structurally distinct.
#[verifier::loop_isolation(false)]
fn neq_all_exec(vals: &Vec<Expr>) -> (r: bool)
    ensures
        r == neq_all(view_exprs(vals@)),
{
    proof {
        view_exprs_len(vals@);
    }
    let n = vals.len();
    let ghost w = view_exprs(vals@);
    if n < 2 {
        return true;
    }
    for i in 0..n - 1
        invariant
            forall|j: int| 0 <= j < i ==> #[trigger] w[j] != w[j + 1],
        decreases n - i,
    {
        proof {
            view_exprs_index(vals@, i as int);
            view_exprs_index(vals@, i as int + 1);
        }
        if expr_eq(&vals[i], &vals[i + 1]) {
            return false;
        }
    }
    true
}

/// Every value is true under the truthiness rule.
#[verifier::loop_isolation(false)]
fn all_truthy_exec(vals: &Vec<Expr>) -> (r: bool)
    ensures
        r == all_truthy(view_exprs(vals@)),
{
    proof {
        view_exprs_len(vals@);
    }
    let n = vals.len();
    let ghost w = view_exprs(vals@);
    for i in 0..n
        invariant
            forall|j: int| 0 <= j < i ==> spec_truthy(#[trigger] w[j]),
        decreases n - i,
    {
        proof {
            view_exprs_index(vals@, i as int);
        }
        if !truthy(&vals[i]) {
            return false;
        }
    }
    true
}

/// Some value is true under the truthiness rule.
#[verifier::loop_isolation(false)]
fn any_truthy_exec(vals: &Vec<Expr>) -> (r: bool)
    ensures
        r == any_truthy(view_exprs(vals@)),
{
    proof {
        view_exprs_len(vals@);
    }
    let n = vals.len();
    let ghost w = view_exprs(vals@);
    for i in 0..n
        invariant
            forall|j: int| 0 <= j < i ==> !spec_truthy(#[trigger] w[j]),
        decreases n - i,
    {
        proof {
            view_exprs_index(vals@, i as int);
        }
        if truthy(&vals[i]) {
            return true;
        }
    }
    false
}

/// The truth representation, built at run time.
fn bool_expr_exec(b: bool) -> (r: Expr)
    ensures
        r@ == bool_expr(b),
{
    if b {
        let t = "T";
        proof {
            reveal_strlit("T");
            assert(t@ =~= seq!['T']);
        }
        Expr::Constant(Atom::Symbol(t.to_owned()))
    } else {
        Expr::Nil
    }
}

/// Apply a primitive operator to evaluated arguments.
fn apply_builtin_exec(b: BuiltIn, vals: &Vec<Expr>, table: &FloatTable) -> (r: Result<
    Expr,
    EvalError,
>)
    ensures
        ({
            let o = apply_builtin(b, view_exprs(vals@), table@);
            match r {
                Ok(v) => o == SpecOutcome::Val(v@),
                Err(e) => o == SpecOutcome::Fail(e@),
            }
        }),
{
    proof {
        view_exprs_len(vals@);
    }
    let ghost w = view_exprs(vals@);
    match b {
        BuiltIn::Greater | BuiltIn::Less | BuiltIn::GreaterEqual | BuiltIn::LessEqual => {
            match cmp_all_exec(b, vals, table) {
                Ok(t) => Ok(bool_expr_exec(t)),
                Err(e) => Err(e),
            }
        },
        BuiltIn::Plus | BuiltIn::Times => {
            let plus = match b {
                BuiltIn::Plus => true,
                _ => false,
            };
            if vals.len() == 0 {
                let text = if plus {
                    zero_string()
                } else {
                    one_string()
                };
                proof {
                    crate::bignum::lemma_canonical_unique(text@);
                }
                return Ok(Expr::Constant(Atom::Number(text)));
            }
            if find_non_float(vals, 0).is_none() {
                proof {
                    assert(w.skip(0) =~= w);
                    lemma_non_float_none(w);
                }
                let acc0 = if plus {
                    zero_string()
                } else {
                    one_string()
                };
                proof {
                    if plus {
                        reveal_strlit("0");
                    } else {
                        reveal_strlit("1");
                    }
                }
                match float_fold_exec(b, acc0, vals, 0, table) {
                    Ok(text) => Ok(Expr::Constant(Atom::Float(text))),
                    Err(e) => Err(e),
                }
            } else if find_non_int(vals, 0).is_none() {
                proof {
                    assert(w.skip(0) =~= w);
                    lemma_non_int_none(w);
                }
                let text = if plus {
                    int_sum_exec(vals)
                } else {
                    int_prod_exec(vals)
                };
                proof {
                    crate::bignum::lemma_canonical_unique(text@);
                }
                Ok(Expr::Constant(Atom::Number(text)))
            } else {
                proof {
                    assert(w.skip(0) =~= w);
                }
                if plus {
                    Err(
                        EvalError::TypeError(
                            String::from_str("+ expects number(s) or float(s), found none"),
                        ),
                    )
                } else {
                    Err(
                        EvalError::TypeError(
                            String::from_str("* expects number(s) or float(s), found none"),
                        ),
                    )
                }
            }
        },
        BuiltIn::Minus | BuiltIn::Divide => {
            let minus = match b {
                BuiltIn::Minus => true,
                _ => false,
            };
            let first_float = vals.len() > 0 && (match &vals[0] {
                Expr::Constant(Atom::Float(_)) => true,
                _ => false,
            });
            let first_int = vals.len() > 0 && (match &vals[0] {
                Expr::Constant(Atom::Number(t)) => check_canonical(t),
                _ => false,
            });
            proof {
                if vals@.len() > 0 {
                    view_exprs_index(vals@, 0);
                }
            }
            if first_float {
                match find_non_float(vals, 1) {
                    Some(i) => {
                        proof {
                            view_exprs_index(vals@, i as int);
                            assert(w.skip(1) =~= w.drop_first());
                        }
                        Err(
                            EvalError::TypeError(
                                msg_expr("Invalid float passed: ", &vals[i]),
                            ),
                        )
                    },
                    None => {
                        proof {
                            assert(w.skip(1) =~= w.drop_first());
                            lemma_non_float_none(w.skip(1));
                            assert forall|j: int| 1 <= j < w.len() implies as_float(
                                #[trigger] w[j],
                            ) is Some by {
                                assert(w.skip(1)[j - 1] == w[j]);
                                assert(as_float(w.skip(1)[j - 1]) is Some);
                            }
                        }
                        let acc0 = match &vals[0] {
                            Expr::Constant(Atom::Float(t)) => t.clone(),
                            _ => {
                                proof {
                                    assert(false);
                                }
                                return Err(EvalError::Exhausted);
                            },
                        };
                        match float_fold_exec(b, acc0, vals, 1, table) {
                            Ok(text) => Ok(Expr::Constant(Atom::Float(text))),
                            Err(e) => Err(e),
                        }
                    },
                }
            } else if first_int {
                match find_non_int(vals, 1) {
                    Some(i) => {
                        proof {
                            view_exprs_index(vals@, i as int);
                            assert(w.skip(1) =~= w.drop_first());
                        }
                        Err(
                            EvalError::TypeError(
                                msg_expr("Invalid number passed: ", &vals[i]),
                            ),
                        )
                    },
                    None => {
                        proof {
                            assert(w.skip(1) =~= w.drop_first());
                            lemma_non_int_none(w.skip(1));
                            assert forall|j: int| 1 <= j < w.len() implies as_int(
                                #[trigger] w[j],
                            ) is Some by {
                                assert(w.skip(1)[j - 1] == w[j]);
                                assert(as_int(w.skip(1)[j - 1]) is Some);
                            }
                        }
                        let acc0 = match &vals[0] {
                            Expr::Constant(Atom::Number(t)) => t.clone(),
                            _ => {
                                proof {
                                    assert(false);
                                }
                                return Err(EvalError::Exhausted);
                            },
                        };
                        if minus {
                            let text = int_sub_exec(acc0, vals, 1);
                            proof {
                                crate::bignum::lemma_canonical_unique(text@);
                            }
                            Ok(Expr::Constant(Atom::Number(text)))
                        } else {
                            match int_div_exec(acc0, vals, 1) {
                                Ok(text) => {
                                    proof {
                                        crate::bignum::lemma_canonical_unique(text@);
                                    }
                                    Ok(Expr::Constant(Atom::Number(text)))
                                },
                                Err(e) => Err(e),
                            }
                        }
                    },
                }
            } else {
                if minus {
                    Err(
                        EvalError::TypeError(
                            String::from_str(
                                "- expects 1 or more number(s) or float(s), found none",
                            ),
                        ),
                    )
                } else {
                    Err(
                        EvalError::TypeError(
                            String::from_str(
                                "/ expects 1 or more number(s) or float(s), found none",
                            ),
                        ),
                    )
                }
            }
        },
        BuiltIn::Equal => Ok(bool_expr_exec(eq_all_exec(vals))),
        BuiltIn::NotEqual => Ok(bool_expr_exec(neq_all_exec(vals))),
        BuiltIn::And => Ok(bool_expr_exec(all_truthy_exec(vals))),
        BuiltIn::Or => Ok(bool_expr_exec(any_truthy_exec(vals))),
        BuiltIn::Not => {
            if vals.len() == 1 {
                proof {
                    view_exprs_index(vals@, 0);
                }
                Ok(bool_expr_exec(!truthy(&vals[0])))
            } else {
                Err(EvalError::Arity(1, vals.len()))
            }
        },
    }
}

/// Apply `car` or `cdr` to evaluated arguments.
#[verifier::loop_isolation(false)]
pub(crate) fn std_call_exec(name: &String, vals: &Vec<Expr>) -> (r: Result<Expr, EvalError>)
    requires
        name@ == "car"@ || name@ == "cdr"@,
    ensures
        ({
            let o = std_call(name@, view_exprs(vals@));
            match r {
                Ok(v) => o == SpecOutcome::Val(v@),
                Err(e) => o == SpecOutcome::Fail(e@),
            }
        }),
{
    proof {
        view_exprs_len(vals@);
        reveal_strlit("car");
        reveal_strlit("cdr");
    }
    let car = "car".to_owned();
    let is_car = *name == car;
    if vals.len() == 1 {
        proof {
            view_exprs_index(vals@, 0);
        }
        match &vals[0] {
            Expr::Quote(items) => {
                proof {
                    view_exprs_len(items@);
                }
                let ghost q = view_exprs(items@);
                if is_car {
                    if items.len() == 0 {
                        Ok(Expr::Nil)
                    } else {
                        proof {
                            view_exprs_index(items@, 0);
                        }
                        Ok(items[0].clone())
                    }
                } else {
                    if items.len() <= 1 {
                        Ok(Expr::Nil)
                    } else if items.len() == 2 {
                        proof {
                            view_exprs_index(items@, 1);
                        }
                        Ok(items[1].clone())
                    } else {
                        let mut rest: Vec<Expr> = Vec::new();
                        let n = items.len();
                        for i in 1..n
                            invariant
                                rest@.len() == i - 1,
                                forall|j: int|
                                    0 <= j < i - 1 ==> view_expr(#[trigger] rest@[j]) == q[j + 1],
                            decreases n - i,
                        {
                            proof {
                                view_exprs_index(items@, i as int);
                            }
                            let e = items[i].clone();
                            rest.push(e);
                        }
                        proof {
                            view_exprs_len(rest@);
                            assert forall|j: int|
                                0 <= j < rest@.len() implies view_exprs(rest@)[j] == q.skip(1)[j]
                            by {
                                view_exprs_index(rest@, j);
                            }
                            assert(view_exprs(rest@) =~= q.skip(1));
                        }
                        Ok(Expr::Quote(rest))
                    }
                }
            },
            Expr::Nil => Ok(Expr::Nil),
            _ => Err(EvalError::TypeError(String::from_str("No valid functions found"))),
        }
    } else {
        Err(EvalError::TypeError(String::from_str("No valid functions found")))
    }
}

/// The first position holds what `first_pos` finds: the earliest match.
proof fn lemma_first_pos_char(params: Seq<SpecExpr>, e: SpecExpr)
    ensures
        match first_pos(params, e) {
            Some(k) => k < params.len() && params[k as int] == e && forall|j: int|
                0 <= j < k ==> params[j] != e,
            None => forall|j: int| 0 <= j < params.len() ==> params[j] != e,
        },
    decreases params.len(),
{
    if params.len() > 0 {
        lemma_first_pos_char(params.drop_first(), e);
        let d = params.drop_first();
        assert(forall|j: int| 0 <= j < d.len() ==> d[j] == params[j + 1]);
        if params[0] != e {
            match first_pos(d, e) {
                Some(k) => {
                    assert(params[k as int + 1] == d[k as int]);
                    assert forall|j: int| 0 <= j < k + 1 implies params[j] != e by {
                        if j > 0 {
                            assert(d[j - 1] != e);
                        }
                    }
                },
                None => {
                    assert forall|j: int| 0 <= j < params.len() implies params[j] != e by {
                        if j > 0 {
                            assert(d[j - 1] != e);
                        }
                    }
                },
            }
        }
    }
}

/// A scan that finds the earliest match agrees with `first_pos`.
proof fn lemma_first_pos_of(params: Seq<SpecExpr>, e: SpecExpr, k: int)
    requires
        0 <= k < params.len(),
        params[k] == e,
        forall|j: int| 0 <= j < k ==> params[j] != e,
    ensures
        first_pos(params, e) == Some(k as nat),
    decreases params.len(),
{
    let d = params.drop_first();
    assert(forall|j: int| 0 <= j < d.len() ==> d[j] == params[j + 1]);
    if k > 0 {
        assert(d[k - 1] == e);
        assert forall|j: int| 0 <= j < k - 1 implies d[j] != e by {
            assert(params[j + 1] != e);
        }
        lemma_first_pos_of(d, e, k - 1);
        assert(params[0] != e);
    }
}

/// Find the earliest parameter with an argument that equals `e`.
#[verifier::loop_isolation(false)]
fn find_param(e: &Expr, params: &Vec<Expr>, argc: usize) -> (r: Option<usize>)
    requires
        argc <= params@.len(),
    ensures
        ({
            let ps = view_exprs(params@).take(argc as int);
            match r {
                Some(i) => i < argc && first_pos(ps, e@) == Some(i as nat),
                None => first_pos(ps, e@) is None,
            }
        }),
{
    proof {
        view_exprs_len(params@);
    }
    let ghost ps = view_exprs(params@).take(argc as int);
    for i in 0..argc
        invariant
            forall|j: int| 0 <= j < i ==> ps[j] != e@,
        decreases argc - i,
    {
        proof {
            view_exprs_index(params@, i as int);
        }
        if expr_eq(e, &params[i]) {
            proof {
                lemma_first_pos_of(ps, e@, i as int);
            }
            return Some(i);
        }
    }
    proof {
        lemma_first_pos_char(ps, e@);
    }
    None
}

/// Substitute arguments into a body, marking the parameters that were hit.
#[verifier::loop_isolation(false)]
fn subst_exec(e: &Expr, params: &Vec<Expr>, args: &Vec<Expr>, marked: &mut Vec<bool>) -> (r: Expr)
    requires
        args@.len() <= params@.len(),
        old(marked)@.len() == params@.len(),
    ensures
        ({
            let (se, sm) = subst(e@, view_exprs(params@), view_exprs(args@), old(marked)@);
            r@ == se && final(marked)@ == sm
        }),
        final(marked)@.len() == old(marked)@.len(),
    decreases *e,
{
    proof {
        view_exprs_len(params@);
        view_exprs_len(args@);
    }
    match find_param(e, params, args.len()) {
        Some(i) => {
            proof {
                view_exprs_index(args@, i as int);
            }
            marked.set(i, true);
            proof {
                assert(marked@ =~= old(marked)@.update(i as int, true));
            }
            args[i].clone()
        },
        None => {
            match e {
                Expr::Call(h, tail) => {
                    let h2 = subst_exec(h, params, args, marked);
                    let mut out: Vec<Expr> = Vec::new();
                    let n = tail.len();
                    let ghost w = view_exprs(tail@);
                    let ghost m_after_head = marked@;
                    proof {
                        view_exprs_len(tail@);
                        assert(w.skip(0) =~= w);
                        assert(view_exprs(out@) =~= Seq::<SpecExpr>::empty());
                        let (rest0, mfin0) = subst_list(
                            w,
                            view_exprs(params@),
                            view_exprs(args@),
                            marked@,
                        );
                        assert(view_exprs(out@) + rest0 =~= rest0);
                    }
                    for i in 0..n
                        invariant
                            args@.len() <= params@.len(),
                            marked@.len() == params@.len(),
                            subst_list(w, view_exprs(params@), view_exprs(args@), m_after_head)
                                == ({
                                let (rest, mfin) = subst_list(
                                    w.skip(i as int),
                                    view_exprs(params@),
                                    view_exprs(args@),
                                    marked@,
                                );
                                (view_exprs(out@) + rest, mfin)
                            }),
                        decreases n - i,
                    {
                        proof {
                            assert(decreases_to!(*e => *h, tail@));
                            assert(decreases_to!(tail@ => tail@[i as int]));
                            view_exprs_index(tail@, i as int);
                            assert(w.skip(i as int)[0] == w[i as int]);
                            assert(w.skip(i as int).drop_first() =~= w.skip(i as int + 1));
                        }
                        let ghost m_before = marked@;
                        let ghost out_top = out@;
                        let e2 = subst_exec(&tail[i], params, args, marked);
                        out.push(e2);
                        proof {
                            view_exprs_len(out@);
                            assert(out@.drop_last() =~= out_top);
                            assert(out@.drop_last().push(out@.last()) =~= out@);
                            view_exprs_push(out@.drop_last(), out@.last());
                            let (e2s, m2s) = subst(
                                w[i as int],
                                view_exprs(params@),
                                view_exprs(args@),
                                m_before,
                            );
                            assert(marked@ == m2s);
                            let (rest2, mfin2) = subst_list(
                                w.skip(i as int + 1),
                                view_exprs(params@),
                                view_exprs(args@),
                                m2s,
                            );
                            assert(subst_list(
                                w.skip(i as int),
                                view_exprs(params@),
                                view_exprs(args@),
                                m_before,
                            ) == (seq![e2s] + rest2, mfin2));
                            assert(view_exprs(out@) =~= view_exprs(out@.drop_last()).push(e2s));
                            assert((view_exprs(out@.drop_last()) + (seq![e2s] + rest2)) =~= (
                            view_exprs(out@.drop_last()).push(e2s) + rest2));
                            assert(subst_list(
                                w,
                                view_exprs(params@),
                                view_exprs(args@),
                                m_after_head,
                            ).0 == view_exprs(out@.drop_last()) + (seq![e2s] + rest2));
                            assert(subst_list(
                                w,
                                view_exprs(params@),
                                view_exprs(args@),
                                m_after_head,
                            ).1 == mfin2);
                            assert(subst_list(
                                w,
                                view_exprs(params@),
                                view_exprs(args@),
                                m_after_head,
                            ) == (view_exprs(out@) + rest2, mfin2));
                        }
                    }
                    proof {
                        assert(w.skip(n as int).len() == 0);
                        let (rest3, mfin3) = subst_list(
                            w.skip(n as int),
                            view_exprs(params@),
                            view_exprs(args@),
                            marked@,
                        );
                        assert(rest3 =~= Seq::<SpecExpr>::empty());
                        assert(view_exprs(out@) + rest3 =~= view_exprs(out@));
                    }
                    Expr::Call(Box::new(h2), out)
                },
                Expr::If(p, th, o) => {
                    let p2 = subst_exec(p, params, args, marked);
                    let t2 = subst_exec(th, params, args, marked);
                    match o {
                        Some(e2) => {
                            let o2 = subst_exec(e2, params, args, marked);
                            Expr::If(Box::new(p2), Box::new(t2), Some(Box::new(o2)))
                        },
                        None => Expr::If(Box::new(p2), Box::new(t2), None),
                    }
                },
                _ => e.clone(),
            }
        },
    }
}

/// The parameters that substitution did not hit.
#[verifier::loop_isolation(false)]
fn keep_unmarked_exec(params: &Vec<Expr>, marked: &Vec<bool>) -> (r: Vec<Expr>)
    requires
        marked@.len() == params@.len(),
    ensures
        view_exprs(r@) == keep_unmarked(view_exprs(params@), marked@),
{
    proof {
        view_exprs_len(params@);
    }
    let n = params.len();
    let ghost w = view_exprs(params@);
    let mut out: Vec<Expr> = Vec::new();
    proof {
        assert(w.skip(0) =~= w);
        assert(marked@.skip(0) =~= marked@);
        assert(view_exprs(out@) =~= Seq::<SpecExpr>::empty());
        assert(view_exprs(out@) + keep_unmarked(w, marked@) =~= keep_unmarked(w, marked@));
    }
    for i in 0..n
        invariant
            keep_unmarked(w, marked@) == view_exprs(out@) + keep_unmarked(
                w.skip(i as int),
                marked@.skip(i as int),
            ),
        decreases n - i,
    {
        proof {
            view_exprs_index(params@, i as int);
            assert(w.skip(i as int)[0] == w[i as int]);
            assert(w.skip(i as int).drop_first() =~= w.skip(i as int + 1));
            assert(marked@.skip(i as int)[0] == marked@[i as int]);
            assert(marked@.skip(i as int).drop_first() =~= marked@.skip(i as int + 1));
        }
        if !marked[i] {
            let ghost old_out = out@;
            let e = params[i].clone();
            out.push(e);
            proof {
                view_exprs_len(out@);
                assert(out@.drop_last() =~= old_out);
                assert(out@.drop_last().push(out@.last()) =~= out@);
                view_exprs_push(out@.drop_last(), out@.last());
                assert(view_expr(out@.last()) == w[i as int]);
                assert(view_exprs(out@) =~= view_exprs(old_out).push(w[i as int]));
                assert(keep_unmarked(w.skip(i as int), marked@.skip(i as int)) == seq![
                    w[i as int],
                ] + keep_unmarked(w.skip(i as int + 1), marked@.skip(i as int + 1)));
                assert((view_exprs(old_out) + (seq![w[i as int]] + keep_unmarked(
                    w.skip(i as int + 1),
                    marked@.skip(i as int + 1),
                ))) =~= (view_exprs(out@) + keep_unmarked(
                    w.skip(i as int + 1),
                    marked@.skip(i as int + 1),
                )));
            }
        } else {
            proof {
                assert(keep_unmarked(w.skip(i as int), marked@.skip(i as int)) == keep_unmarked(
                    w.skip(i as int + 1),
                    marked@.skip(i as int + 1),
                ));
            }
        }
    }
    proof {
        assert(w.skip(n as int).len() == 0);
        assert(keep_unmarked(w.skip(n as int), marked@.skip(n as int)) =~= Seq::<
            SpecExpr,
        >::empty());
        assert(view_exprs(out@) + Seq::<SpecExpr>::empty() =~= view_exprs(out@));
    }
    out
}

/// A run of `false` marks, one per parameter.
fn fresh_marks(n: usize) -> (r: Vec<bool>)
    ensures
        r@ =~= Seq::new(n as nat, |i: int| false),
{
    let mut marked: Vec<bool> = Vec::new();
    for i in 0..n
        invariant
            marked@.len() == i,
            forall|j: int| 0 <= j < i ==> !(#[trigger] marked@[j]),
        decreases n - i,
    {
        marked.push(false);
    }
    marked
}

/// The step budget: far beyond what any machine can take.
pub open spec fn fuel_budget() -> nat {
    0xffff_ffff_ffff_ffff as nat
}

impl Context {
    /// Evaluate the arguments of a call left to right, keeping what each
    /// one's evaluation did to the environment.
    #[verifier::loop_isolation(false)]
    fn eval_args_exec(&mut self, args: &Vec<Expr>, fuel: u64) -> (r: Result<Vec<Expr>, EvalError>)
        ensures
            ({
                let sr = eval_args(
                    fuel as nat,
                    old(self).env(),
                    old(self).table(),
                    view_exprs(args@),
                );
                &&& final(self).table() == old(self).table()
                &&& match r {
                    Ok(vals) => match sr {
                        Ok((vs, env2)) => view_exprs(vals@) == vs && final(self).env() == env2,
                        Err(_) => false,
                    },
                    Err(e) => match sr {
                        Err((err, env2)) => e@ == err && final(self).env() == env2,
                        Ok(_) => false,
                    },
                }
            }),
        decreases fuel, 1int,
    {
        let ghost env0 = self.env();
        let ghost t = self.table();
        let ghost w = view_exprs(args@);
        proof {
            view_exprs_len(args@);
            assert(w.skip(0) =~= w);
        }
        let n = args.len();
        let mut out: Vec<Expr> = Vec::new();
        proof {
            assert(view_exprs(out@) =~= Seq::<SpecExpr>::empty());
        }
        for i in 0..n
            invariant
                self.table() == t,
                view_exprs(out@).len() == i,
                ({
                    match eval_args(fuel as nat, self.env(), t, w.skip(i as int)) {
                        Ok((vs, e2)) => eval_args(fuel as nat, env0, t, w) == Ok::<
                            (Seq<SpecExpr>, Map<Seq<char>, SpecExpr>),
                            (SpecEvalError, Map<Seq<char>, SpecExpr>),
                        >((view_exprs(out@) + vs, e2)),
                        Err(p) => eval_args(fuel as nat, env0, t, w) == Err::<
                            (Seq<SpecExpr>, Map<Seq<char>, SpecExpr>),
                            (SpecEvalError, Map<Seq<char>, SpecExpr>),
                        >(p),
                    }
                }),
            decreases n - i,
        {
            proof {
                view_exprs_index(args@, i as int);
                assert(w.skip(i as int)[0] == w[i as int]);
                assert(w.skip(i as int).drop_first() =~= w.skip(i as int + 1));
            }
            let arg = args[i].clone();
            match self.eval_fuel(arg, fuel) {
                Ok(v) => {
                    let ghost out_top = out@;
                    out.push(v);
                    proof {
                        view_exprs_len(out@);
                        assert(out@.drop_last() =~= out_top);
                        assert(out@.drop_last().push(out@.last()) =~= out@);
                        view_exprs_push(out@.drop_last(), out@.last());
                        match eval_args(fuel as nat, self.env(), t, w.skip(i as int + 1)) {
                            Ok((vs, e2)) => {
                                assert((view_exprs(out_top) + (seq![view_expr(out@.last())] + vs))
                                    =~= (view_exprs(out@) + vs));
                            },
                            Err(p) => {},
                        }
                    }
                },
                Err(e) => {
                    return Err(e);
                },
            }
        }
        proof {
            assert(w.skip(n as int).len() == 0);
            assert(view_exprs(out@) + Seq::<SpecExpr>::empty() =~= view_exprs(out@));
        }
        Ok(out)
    }

    /// Evaluate one expression with a given step budget.
    ///
    /// `if` branches and fully applied function bodies re-enter the loop
    /// rather than the stack, so recursion through `if` runs in constant
    /// stack space.
    #[verifier::loop_isolation(false)]
    fn eval_fuel(&mut self, expr: Expr, fuel: u64) -> (r: Result<Expr, EvalError>)
        ensures
            ({
                let sr = eval_spec(fuel as nat, old(self).env(), old(self).table(), expr@);
                &&& final(self).table() == old(self).table()
                &&& final(self).env() == sr.env
                &&& match r {
                    Ok(v) => sr.outcome == SpecOutcome::Val(v@),
                    Err(e) => sr.outcome == SpecOutcome::Fail(e@),
                }
            }),
        decreases fuel, 0int,
    {
        let ghost goal = eval_spec(fuel as nat, old(self).env(), old(self).table(), expr@);
        let ghost t = old(self).table();
        let mut current = expr;
        let mut fl = fuel;
        loop
            invariant
                fl <= fuel,
                self.table() == t,
                eval_spec(fl as nat, self.env(), t, current@) == goal,
            decreases fl,
        {
            if fl == 0 {
                return Err(EvalError::Exhausted);
            }
            let f = fl - 1;
            match current {
                Expr::Constant(Atom::Symbol(name)) => {
                    match env_lookup(&self.environment, &name) {
                        Some(v) => {
                            return Ok(v);
                        },
                        None => {
                            return Err(EvalError::UnboundSymbol(name));
                        },
                    }
                },
                Expr::Constant(a) => {
                    return Ok(Expr::Constant(a));
                },
                Expr::Quote(q) => {
                    return Ok(Expr::Quote(q));
                },
                Expr::Function(ps, b) => {
                    return Ok(Expr::Function(ps, b));
                },
                Expr::Nil => {
                    return Ok(Expr::Nil);
                },
                Expr::Let(bs) => {
                    let ghost bviews = view_bindings(bs@);
                    proof {
                        view_bindings_len(bs@);
                        assert(bviews.skip(0) =~= bviews);
                    }
                    let n = bs.len();
                    for i in 0..n
                        invariant
                            self.table() == t,
                            eval_let(f as nat, self.env(), t, bviews.skip(i as int)) == goal,
                        decreases n - i,
                    {
                        proof {
                            view_bindings_index(bs@, i as int);
                            assert(bviews.skip(i as int)[0] == bviews[i as int]);
                            assert(bviews.skip(i as int).drop_first() =~= bviews.skip(
                                i as int + 1,
                            ));
                        }
                        let name = match &bs[i].0 {
                            Atom::Symbol(sym) => sym.clone(),
                            _ => {
                                return Err(
                                    EvalError::TypeError(
                                        msg_atom("Expected symbol, found following: ", &bs[i].0),
                                    ),
                                );
                            },
                        };
                        let body = (*bs[i].1).clone();
                        match self.eval_fuel(body, f) {
                            Ok(v) => {
                                env_insert(&mut self.environment, name, v);
                            },
                            Err(e) => {
                                return Err(e);
                            },
                        }
                    }
                    proof {
                        assert(bviews.skip(n as int).len() == 0);
                    }
                    return Ok(Expr::Nil);
                },
                Expr::If(p, th, o) => {
                    let pv = match self.eval_fuel(*p, f) {
                        Ok(v) => v,
                        Err(e) => {
                            return Err(e);
                        },
                    };
                    if truthy(&pv) {
                        current = *th;
                        fl = f;
                    } else {
                        match o {
                            Some(e2) => {
                                current = *e2;
                                fl = f;
                            },
                            None => {
                                return Err(
                                    EvalError::NoBranch(
                                        msg_expr("No branches of predicate ran: ", &pv),
                                    ),
                                );
                            },
                        }
                    }
                },
                Expr::Call(h, tail) => {
                    let special = match &*h {
                        Expr::Constant(Atom::Symbol(name)) => {
                            let cars = "car".to_owned();
                            let cdrs = "cdr".to_owned();
                            (*name == cars || *name == cdrs) && !env_contains(
                                &self.environment,
                                name.as_str(),
                            )
                        },
                        _ => false,
                    };
                    if special {
                        proof {
                            let nm = view_expr(*h)->Constant_0->Symbol_0;
                            assert(view_expr(*h) matches SpecExpr::Constant(SpecAtom::Symbol(_)));
                            assert(!self.env().contains_key(nm));
                            assert(nm == "car"@ || nm == "cdr"@);
                        }
                        let vals = match self.eval_args_exec(&tail, f) {
                            Ok(vals) => vals,
                            Err(e) => {
                                return Err(e);
                            },
                        };
                        let name = match &*h {
                            Expr::Constant(Atom::Symbol(sym)) => sym,
                            _ => {
                                proof {
                                    assert(false);
                                }
                                return Err(EvalError::Exhausted);
                            },
                        };
                        return std_call_exec(name, &vals);
                    }
                    let hv = match self.eval_fuel(*h, f) {
                        Ok(v) => v,
                        Err(e) => {
                            return Err(e);
                        },
                    };
                    let vals = match self.eval_args_exec(&tail, f) {
                        Ok(vals) => vals,
                        Err(e) => {
                            return Err(e);
                        },
                    };
                    match hv {
                        Expr::Function(params, body) => {
                            proof {
                                view_exprs_len(params@);
                                view_exprs_len(vals@);
                            }
                            if vals.len() > params.len() {
                                return Err(EvalError::Arity(params.len(), vals.len()));
                            }
                            let mut marked = fresh_marks(params.len());
                            let body2 = subst_exec(&body, &params, &vals, &mut marked);
                            let rest = keep_unmarked_exec(&params, &marked);
                            proof {
                                view_exprs_len(rest@);
                            }
                            if rest.len() == 0 {
                                current = body2;
                                fl = f;
                            } else {
                                return Ok(Expr::Function(rest, Box::new(body2)));
                            }
                        },
                        Expr::Constant(Atom::BuiltIn(b)) => {
                            return apply_builtin_exec(b, &vals, &self.floats);
                        },
                        other => {
                            return Ok(other);
                        },
                    }
                },
            }
        }
    }

    /// Evaluate an expression against this session's environment, as the
    /// reader-evaluator loop does for each form read.
    pub fn eval(&mut self, expr: Expr) -> (r: Result<Expr, EvalError>)
        ensures
            ({
                let sr = eval_spec(fuel_budget(), old(self).env(), old(self).table(), expr@);
                &&& final(self).table() == old(self).table()
                &&& final(self).env() == sr.env
                &&& match r {
                    Ok(v) => sr.outcome == SpecOutcome::Val(v@),
                    Err(e) => sr.outcome == SpecOutcome::Fail(e@),
                }
            }),
    {
        self.eval_fuel(expr, u64::MAX)
    }
}

impl Context {
    /// Replace every double literal in an expression by the canonical text
    /// this session's table gives for it.
    pub fn canon(&self, e: &Expr) -> (r: Result<Expr, FloatQuery>)
        ensures
            ({
                match r {
                    Ok(e2) => crate::floats::canon_expr(e@, self.table()) == Ok::<
                        SpecExpr,
                        SpecQuery,
                    >(e2@),
                    Err(q) => crate::floats::canon_expr(e@, self.table()) == Err::<
                        SpecExpr,
                        SpecQuery,
                    >(q@),
                }
            }),
    {
        crate::floats::canonize(e, &self.floats)
    }
}

/// The shapes of a run of evaluation errors.
pub open spec fn view_errors(s: Seq<EvalError>) -> Seq<SpecEvalError>
    decreases s,
{
    if s.len() == 0 {
        Seq::empty()
    } else {
        view_errors(s.drop_last()).push(s.last()@)
    }
}

pub broadcast proof fn view_errors_len(s: Seq<EvalError>)
    ensures
        (#[trigger] view_errors(s)).len() == s.len(),
    decreases s,
{
    if s.len() > 0 {
        view_errors_len(s.drop_last());
    }
}

pub broadcast proof fn view_errors_push(s: Seq<EvalError>, x: EvalError)
    ensures
        #[trigger] view_errors(s.push(x)) == view_errors(s).push(x@),
{
    assert(s.push(x).drop_last() =~= s);
    assert(s.push(x).last() == x);
}

/// Run a program's expressions in order: each is canonicalized, then
/// evaluated; every outcome is kept, and the environment flows on through
/// errors.
pub open spec fn run_program(
    fuel: nat,
    env: Map<Seq<char>, SpecExpr>,
    t: Seq<(SpecQuery, SpecAnswer)>,
    es: Seq<SpecExpr>,
) -> (Seq<Result<SpecExpr, SpecEvalError>>, Map<Seq<char>, SpecExpr>)
    decreases es,
{
    if es.len() == 0 {
        (Seq::empty(), env)
    } else {
        let (first, env2): (Result<SpecExpr, SpecEvalError>, Map<Seq<char>, SpecExpr>) = match crate::floats::canon_expr(
            es[0],
            t,
        ) {
            Err(q) => (Err(SpecEvalError::MissingFloat(q)), env),
            Ok(e2) => {
                let sr = eval_spec(fuel, env, t, e2);
                match sr.outcome {
                    SpecOutcome::Val(v) => (Ok(v), sr.env),
                    SpecOutcome::Fail(e) => (Err(e), sr.env),
                }
            },
        };
        let (rest, envf) = run_program(fuel, env2, t, es.drop_first());
        (seq![first] + rest, envf)
    }
}

/// The values of the outcomes, where all succeeded.
pub open spec fn outs_values(outs: Seq<Result<SpecExpr, SpecEvalError>>) -> Seq<SpecExpr>
    decreases outs,
{
    if outs.len() == 0 {
        Seq::empty()
    } else {
        match outs[0] {
            Ok(v) => seq![v] + outs_values(outs.drop_first()),
            Err(_) => outs_values(outs.drop_first()),
        }
    }
}

/// The errors among the outcomes, in order.
pub open spec fn outs_errors(outs: Seq<Result<SpecExpr, SpecEvalError>>) -> Seq<SpecEvalError>
    decreases outs,
{
    if outs.len() == 0 {
        Seq::empty()
    } else {
        match outs[0] {
            Ok(_) => outs_errors(outs.drop_first()),
            Err(e) => seq![e] + outs_errors(outs.drop_first()),
        }
    }
}

} // verus!
