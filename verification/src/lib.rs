//! A small Lisp: an s-expression reader, a printer, and a tree-walking
//! evaluator with substitution-based partial application.
//!
//! The library computes with integers of arbitrary precision through the
//! host's big integers, and with doubles through a query table the host
//! fills (see the floats module): the library itself never touches the
//! platform's floating point.
use vstd::prelude::*;

pub mod ast;
pub mod bignum;
pub mod eval;
pub mod floats;
pub mod laws;
pub mod parse;
pub mod prims;
pub mod print;
pub mod text;

use crate::ast::{Expr, view_exprs, view_exprs_len, view_exprs_index, view_exprs_push};
use crate::eval::{Context, EvalError, SpecOutcome, SpecEvalError, eval_spec, fuel_budget,
    run_program, outs_values, outs_errors, view_errors, view_errors_len, view_errors_push};
use crate::parse::{ParseError, spec_program};

verus! {

/// Parse a whole program, then evaluate each of its expressions in order
/// against the given session.
///
/// A parse error comes back in the outer `Err` and nothing is evaluated.
/// Otherwise every expression is evaluated, even after one fails: the inner
/// `Ok` carries every value, and the inner `Err` collects every evaluation
/// error, in order, once any expression failed.
#[verifier::loop_isolation(false)]
#[verifier::rlimit(100)]
pub fn parse_and_eval(input: &str, context: &mut Context) -> (r: Result<
    Result<Vec<Expr>, Vec<EvalError>>,
    ParseError,
>)
    ensures
        ({
            match spec_program(input@) {
                Err(pe) => r matches Err(e) && e@ == pe && final(context).env() == old(
                    context,
                ).env() && final(context).table() == old(context).table(),
                Ok(es) => {
                    let (outs, envf) = run_program(
                        fuel_budget(),
                        old(context).env(),
                        old(context).table(),
                        es,
                    );
                    &&& final(context).env() == envf
                    &&& final(context).table() == old(context).table()
                    &&& match r {
                        Ok(Ok(vals)) => outs_errors(outs).len() == 0 && view_exprs(vals@)
                            == outs_values(outs),
                        Ok(Err(errs)) => outs_errors(outs).len() > 0 && view_errors(errs@)
                            == outs_errors(outs),
                        Err(_) => false,
                    }
                },
            }
        }),
{
    let parsed = match crate::parse::parse(input) {
        Ok(es) => es,
        Err(pe) => {
            return Err(pe);
        },
    };
    let ghost es = view_exprs(parsed@);
    let ghost t = context.table();
    let ghost env0 = context.env();
    proof {
        view_exprs_len(parsed@);
        assert(es.skip(0) =~= es);
        assert(es.take(0) =~= Seq::<crate::ast::SpecExpr>::empty());
    }
    let n = parsed.len();
    let mut vals: Vec<Expr> = Vec::new();
    let mut errs: Vec<EvalError> = Vec::new();
    proof {
        assert(view_exprs(vals@) =~= Seq::<crate::ast::SpecExpr>::empty());
        assert(view_errors(errs@) =~= Seq::<SpecEvalError>::empty());
    }
    for i in 0..n
        invariant
            n == parsed@.len(),
            context.table() == t,
            context.env() == run_program(fuel_budget(), env0, t, es.take(i as int)).1,
            view_exprs(vals@) == outs_values(
                run_program(fuel_budget(), env0, t, es.take(i as int)).0,
            ),
            view_errors(errs@) == outs_errors(
                run_program(fuel_budget(), env0, t, es.take(i as int)).0,
            ),
        decreases n - i,
    {
        proof {
            view_exprs_index(parsed@, i as int);
        }
        let ghost done_pre = run_program(fuel_budget(), env0, t, es.take(i as int)).0;
        let ghost env_pre = context.env();
        let outcome: Result<Expr, EvalError> = match context.canon(&parsed[i]) {
            Err(q) => Err(EvalError::MissingFloat(q)),
            Ok(e2) => context.eval(e2),
        };
        proof {
            assert(es.take(i as int + 1).drop_last() =~= es.take(i as int));
            assert(es.take(i as int + 1).last() == es[i as int]);
            lemma_run_snoc(fuel_budget(), env0, t, es.take(i as int + 1));
            let one = seq![es[i as int]];
            assert(one.drop_first() =~= Seq::<crate::ast::SpecExpr>::empty());
            assert(one[0] == es[i as int]);
            reveal_with_fuel(run_program, 3);
            let tail = run_program(fuel_budget(), env_pre, t, one);
            let first = tail.0[0];
            assert(run_program(
                fuel_budget(),
                tail.1,
                t,
                Seq::<crate::ast::SpecExpr>::empty(),
            ).0 =~= Seq::<Result<crate::ast::SpecExpr, SpecEvalError>>::empty());
            assert(seq![first] + Seq::<Result<crate::ast::SpecExpr, SpecEvalError>>::empty()
                =~= seq![first]);
            assert(tail.0 =~= seq![first]);
            assert(run_program(fuel_budget(), env0, t, es.take(i as int + 1)).0 =~= done_pre
                + seq![first]);
            assert(run_program(fuel_budget(), env0, t, es.take(i as int + 1)).1 == tail.1);
            lemma_outs_snoc(done_pre, first);
        }
        match outcome {
            Ok(v) => {
                let ghost vals_top = vals@;
                vals.push(v);
                proof {
                    view_exprs_len(vals@);
                    assert(vals@.drop_last() =~= vals_top);
                    view_exprs_push(vals@.drop_last(), vals@.last());
                }
            },
            Err(e) => {
                let ghost errs_top = errs@;
                errs.push(e);
                proof {
                    view_errors_len(errs@);
                    assert(errs@.drop_last() =~= errs_top);
                    view_errors_push(errs@.drop_last(), errs@.last());
                }
            },
        }
    }
    proof {
        assert(es.take(n as int) =~= es);
        view_errors_len(errs@);
    }
    if errs.len() == 0 {
        Ok(Ok(vals))
    } else {
        Ok(Err(errs))
    }
}

/// Splitting a run after its last expression splits its outcomes the same
/// way.
proof fn lemma_run_snoc(
    fuel: nat,
    env: Map<Seq<char>, crate::ast::SpecExpr>,
    t: Seq<(crate::floats::SpecQuery, crate::floats::SpecAnswer)>,
    es: Seq<crate::ast::SpecExpr>,
)
    requires
        es.len() > 0,
    ensures
        ({
            let (done, envm) = run_program(fuel, env, t, es.drop_last());
            let (tail, envf) = run_program(fuel, envm, t, seq![es.last()]);
            run_program(fuel, env, t, es) == (done + tail, envf)
        }),
    decreases es.len(),
{
    if es.len() == 1 {
        assert(es.drop_last() =~= Seq::<crate::ast::SpecExpr>::empty());
        assert(es =~= seq![es.last()]);
        let (tail, envf) = run_program(fuel, env, t, seq![es.last()]);
        assert(Seq::<Result<crate::ast::SpecExpr, SpecEvalError>>::empty() + tail =~= tail);
    } else {
        let (first, env2): (
            Result<crate::ast::SpecExpr, SpecEvalError>,
            Map<Seq<char>, crate::ast::SpecExpr>,
        ) = match crate::floats::canon_expr(es[0], t) {
            Err(q) => (Err(SpecEvalError::MissingFloat(q)), env),
            Ok(e2) => {
                let sr = eval_spec(fuel, env, t, e2);
                match sr.outcome {
                    SpecOutcome::Val(v) => (Ok::<crate::ast::SpecExpr, SpecEvalError>(v), sr.env),
                    SpecOutcome::Fail(e) => (Err::<crate::ast::SpecExpr, SpecEvalError>(e), sr.env),
                }
            },
        };
        lemma_run_snoc(fuel, env2, t, es.drop_first());
        assert(es.drop_first().drop_last() =~= es.drop_last().drop_first());
        assert(es.drop_first().last() == es.last());
        assert(es.drop_last()[0] == es[0]);
        assert(es.drop_last().len() > 0);
        let (done1, envm1) = run_program(fuel, env2, t, es.drop_first().drop_last());
        let (tail1, envf1) = run_program(fuel, envm1, t, seq![es.last()]);
        assert(seq![first] + (done1 + tail1) =~= (seq![first] + done1) + tail1);
    }
}

/// Appending one outcome appends its value or error.
proof fn lemma_outs_snoc(
    outs: Seq<Result<crate::ast::SpecExpr, SpecEvalError>>,
    last: Result<crate::ast::SpecExpr, SpecEvalError>,
)
    ensures
        outs_values(outs + seq![last]) == (match last {
            Ok(v) => outs_values(outs).push(v),
            Err(_) => outs_values(outs),
        }),
        outs_errors(outs + seq![last]) == (match last {
            Ok(_) => outs_errors(outs),
            Err(e) => outs_errors(outs).push(e),
        }),
    decreases outs.len(),
{
    if outs.len() == 0 {
        assert(outs + seq![last] =~= seq![last]);
        assert((outs + seq![last]).drop_first() =~= Seq::<
            Result<crate::ast::SpecExpr, SpecEvalError>,
        >::empty());
        assert(outs_values(Seq::<Result<crate::ast::SpecExpr, SpecEvalError>>::empty()) =~= Seq::<
            crate::ast::SpecExpr,
        >::empty());
        assert(outs_errors(Seq::<Result<crate::ast::SpecExpr, SpecEvalError>>::empty()) =~= Seq::<
            SpecEvalError,
        >::empty());
        assert(outs_values(outs) =~= Seq::<crate::ast::SpecExpr>::empty());
        assert(outs_errors(outs) =~= Seq::<SpecEvalError>::empty());
        match last {
            Ok(v) => {
                assert(outs_values(outs + seq![last]) =~= outs_values(outs).push(v));
                assert(outs_errors(outs + seq![last]) =~= outs_errors(outs));
            },
            Err(e) => {
                assert(outs_values(outs + seq![last]) =~= outs_values(outs));
                assert(outs_errors(outs + seq![last]) =~= outs_errors(outs).push(e));
            },
        }
    } else {
        lemma_outs_snoc(outs.drop_first(), last);
        assert((outs + seq![last]).drop_first() =~= outs.drop_first() + seq![last]);
        assert((outs + seq![last])[0] == outs[0]);
        match outs[0] {
            Ok(v) => {
                match last {
                    Ok(v2) => {
                        assert(seq![v] + outs_values(outs.drop_first()).push(v2) =~= (seq![v]
                            + outs_values(outs.drop_first())).push(v2));
                    },
                    Err(_) => {},
                }
            },
            Err(e) => {
                match last {
                    Err(e2) => {
                        assert(seq![e] + outs_errors(outs.drop_first()).push(e2) =~= (seq![e]
                            + outs_errors(outs.drop_first())).push(e2));
                    },
                    Ok(_) => {},
                }
            },
        }
    }
}

} // verus!
