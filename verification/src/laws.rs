use vstd::prelude::*;
use crate::ast::{BuiltIn, SpecAtom, SpecExpr, spec_truthy};
use crate::eval::{SpecEvalResult, SpecOutcome, apply_builtin, as_int, bool_expr, cmp_all, eval_args,
    eval_spec, first_non_float, first_non_int, keep_unmarked, pair_cmp, prod_ints, subst,
    sum_ints};
use crate::bignum::canon_of;
use crate::floats::{SpecAnswer, SpecQuery};
use crate::bignum::{canonical, int_of, lemma_canon_of_correct, lemma_canonical_unique};
use crate::parse::{SpecParsed, alpha_end, digits_end, is_alpha, is_symch, is_ws, quote_end,
    spec_atom, spec_builtin, spec_char, spec_expr, spec_exprs, spec_float, spec_keyword, spec_nil,
    spec_number, spec_program, spec_string, spec_symbol, sym_end, ws_end, wsg};
use crate::print::{print_atom, print_expr};

verus! {

/// Evaluation is deterministic: one budget, environment, table and
/// expression give exactly one result.
pub proof fn lemma_eval_deterministic(
    fuel: nat,
    env: Map<Seq<char>, SpecExpr>,
    t: Seq<(SpecQuery, SpecAnswer)>,
    e: SpecExpr,
    r1: SpecEvalResult,
    r2: SpecEvalResult,
)
    requires
        r1 == eval_spec(fuel, env, t, e),
        r2 == eval_spec(fuel, env, t, e),
    ensures
        r1 == r2,
{
}

/// Quote opacity: a quoted list evaluates to itself and changes nothing.
pub proof fn lemma_quote_opaque(
    fuel: nat,
    env: Map<Seq<char>, SpecExpr>,
    t: Seq<(SpecQuery, SpecAnswer)>,
    items: Seq<SpecExpr>,
)
    requires
        fuel >= 1,
    ensures
        eval_spec(fuel, env, t, SpecExpr::Quote(items)) == (SpecEvalResult {
            outcome: SpecOutcome::Val(SpecExpr::Quote(items)),
            env,
        }),
{
}

/// Truthiness of `!`: `(! x)` yields `T` exactly when `x` is `nil` or the
/// empty quote, and `nil` otherwise.
pub proof fn lemma_not_truthiness(x: SpecExpr, t: Seq<(SpecQuery, SpecAnswer)>)
    ensures
        apply_builtin(BuiltIn::Not, seq![x], t) == SpecOutcome::Val(
            bool_expr(x == SpecExpr::Nil || x == SpecExpr::Quote(Seq::empty())),
        ),
{
    assert(seq![x][0] == x);
    match x {
        SpecExpr::Quote(items) => {
            if items.len() == 0 {
                assert(items =~= Seq::<SpecExpr>::empty());
            }
        },
        _ => {},
    }
}

/// Values that evaluate to themselves: constants other than symbols, quoted
/// lists, functions and `nil`.
pub open spec fn self_evaluating(v: SpecExpr) -> bool {
    match v {
        SpecExpr::Constant(SpecAtom::Symbol(_)) => false,
        SpecExpr::Constant(_) => true,
        SpecExpr::Quote(_) => true,
        SpecExpr::Function(_, _) => true,
        SpecExpr::Nil => true,
        _ => false,
    }
}

proof fn lemma_self_eval(
    fuel: nat,
    env: Map<Seq<char>, SpecExpr>,
    t: Seq<(SpecQuery, SpecAnswer)>,
    v: SpecExpr,
)
    requires
        fuel >= 1,
        self_evaluating(v),
    ensures
        eval_spec(fuel, env, t, v) == (SpecEvalResult { outcome: SpecOutcome::Val(v), env }),
{
}

/// Comparison chains: over integer triples, a three-way comparison is the
/// conjunction of its two adjacent comparisons.
pub proof fn lemma_cmp_monotone(
    op: BuiltIn,
    a: SpecExpr,
    b: SpecExpr,
    c: SpecExpr,
    t: Seq<(SpecQuery, SpecAnswer)>,
)
    requires
        op == BuiltIn::Greater || op == BuiltIn::Less || op == BuiltIn::GreaterEqual || op
            == BuiltIn::LessEqual,
        as_int(a) is Some,
        as_int(b) is Some,
        as_int(c) is Some,
    ensures
        ({
            &&& apply_builtin(op, seq![a, b], t) matches SpecOutcome::Val(lv)
            &&& apply_builtin(op, seq![b, c], t) matches SpecOutcome::Val(rv)
            &&& apply_builtin(op, seq![a, b, c], t) == apply_builtin(
                BuiltIn::And,
                seq![lv, rv],
                t,
            )
        }),
{
    reveal_with_fuel(cmp_all, 4);
    let ab = seq![a, b];
    let bc = seq![b, c];
    let abc = seq![a, b, c];
    assert(ab[0] == a && ab[1] == b);
    assert(bc[0] == b && bc[1] == c);
    assert(abc[0] == a && abc[1] == b && abc[2] == c);
    assert(ab.drop_first() =~= seq![b]);
    assert(bc.drop_first() =~= seq![c]);
    assert(abc.drop_first() =~= bc);
    let pab = pair_cmp(op, a, b, t);
    let pbc = pair_cmp(op, b, c, t);
    assert(pab is Ok && pbc is Ok);
    let x = match pab {
        Ok(v) => v,
        Err(_) => false,
    };
    let y = match pbc {
        Ok(v) => v,
        Err(_) => false,
    };
    assert(cmp_all(op, ab, t) == Ok::<bool, SpecQuery>(x)) by {
        assert(seq![b].len() < 2);
    }
    assert(cmp_all(op, bc, t) == Ok::<bool, SpecQuery>(y));
    if x {
        assert(cmp_all(op, abc, t) == cmp_all(op, bc, t));
    }
    let lv = bool_expr(x);
    let rv = bool_expr(y);
    let both = seq![lv, rv];
    assert(both[0] == lv && both[1] == rv);
    assert(spec_truthy(lv) == x);
    assert(spec_truthy(rv) == y);
    if x && y {
        assert(crate::eval::all_truthy(both));
    } else {
        if !x {
            assert(!spec_truthy(both[0]));
        } else {
            assert(!spec_truthy(both[1]));
        }
        assert(!crate::eval::all_truthy(both));
    }
}

/// Regrouping `+` over integers: adding the first two and then the third
/// gives the same value expression as adding all three at once.
pub proof fn lemma_plus_regroup(
    a: SpecExpr,
    b: SpecExpr,
    c: SpecExpr,
    t: Seq<(SpecQuery, SpecAnswer)>,
)
    requires
        as_int(a) is Some,
        as_int(b) is Some,
        as_int(c) is Some,
    ensures
        ({
            &&& apply_builtin(BuiltIn::Plus, seq![a, b], t) matches SpecOutcome::Val(ab)
            &&& apply_builtin(BuiltIn::Plus, seq![ab, c], t) == apply_builtin(
                BuiltIn::Plus,
                seq![a, b, c],
                t,
            )
        }),
{
    let x = as_int(a).unwrap_or(0);
    let y = as_int(b).unwrap_or(0);
    let z = as_int(c).unwrap_or(0);
    lemma_int_pair_dispatch(a, b, t);
    lemma_sum_pair(a, b);
    let ab = SpecExpr::Constant(SpecAtom::Number(canon_of(x + y)));
    lemma_canon_of_correct(x + y);
    assert(as_int(ab) == Some(x + y));
    lemma_int_pair_dispatch(ab, c, t);
    lemma_sum_pair(ab, c);
    lemma_int_triple_dispatch(a, b, c, t);
    lemma_sum_triple(a, b, c);
    assert(apply_builtin(BuiltIn::Plus, seq![ab, c], t) == SpecOutcome::Val(
        SpecExpr::Constant(SpecAtom::Number(canon_of((x + y) + z))),
    ));
    assert(apply_builtin(BuiltIn::Plus, seq![a, b, c], t) == SpecOutcome::Val(
        SpecExpr::Constant(SpecAtom::Number(canon_of(x + y + z))),
    ));
}

/// Regrouping `*` over integers, the same way.
pub proof fn lemma_times_regroup(
    a: SpecExpr,
    b: SpecExpr,
    c: SpecExpr,
    t: Seq<(SpecQuery, SpecAnswer)>,
)
    requires
        as_int(a) is Some,
        as_int(b) is Some,
        as_int(c) is Some,
    ensures
        ({
            &&& apply_builtin(BuiltIn::Times, seq![a, b], t) matches SpecOutcome::Val(ab)
            &&& apply_builtin(BuiltIn::Times, seq![ab, c], t) == apply_builtin(
                BuiltIn::Times,
                seq![a, b, c],
                t,
            )
        }),
{
    let x = as_int(a).unwrap_or(0);
    let y = as_int(b).unwrap_or(0);
    let z = as_int(c).unwrap_or(0);
    lemma_int_pair_dispatch(a, b, t);
    lemma_prod_pair(a, b);
    let ab = SpecExpr::Constant(SpecAtom::Number(canon_of(x * y)));
    lemma_canon_of_correct(x * y);
    assert(as_int(ab) == Some(x * y));
    lemma_int_pair_dispatch(ab, c, t);
    lemma_prod_pair(ab, c);
    lemma_int_triple_dispatch(a, b, c, t);
    lemma_prod_triple(a, b, c);
    assert(apply_builtin(BuiltIn::Times, seq![ab, c], t) == SpecOutcome::Val(
        SpecExpr::Constant(SpecAtom::Number(canon_of((x * y) * z))),
    ));
    assert(apply_builtin(BuiltIn::Times, seq![a, b, c], t) == SpecOutcome::Val(
        SpecExpr::Constant(SpecAtom::Number(canon_of(x * y * z))),
    ));
}

/// A pair of integers takes the integer path of `+` and `*`.
proof fn lemma_int_pair_dispatch(a: SpecExpr, b: SpecExpr, t: Seq<(SpecQuery, SpecAnswer)>)
    requires
        as_int(a) is Some,
        as_int(b) is Some,
    ensures
        first_non_float(seq![a, b]) is Some,
        first_non_int(seq![a, b]) is None,
{
    reveal_with_fuel(first_non_float, 4);
    reveal_with_fuel(first_non_int, 4);
    let s = seq![a, b];
    assert(s[0] == a && s[1] == b);
    assert(s.drop_first() =~= seq![b]);
    assert(seq![b].drop_first() =~= Seq::<SpecExpr>::empty());
    assert(seq![b][0] == b);
    assert(crate::eval::as_float(a) is None);
}

/// A triple of integers takes the integer path of `+` and `*`.
proof fn lemma_int_triple_dispatch(
    a: SpecExpr,
    b: SpecExpr,
    c: SpecExpr,
    t: Seq<(SpecQuery, SpecAnswer)>,
)
    requires
        as_int(a) is Some,
        as_int(b) is Some,
        as_int(c) is Some,
    ensures
        first_non_float(seq![a, b, c]) is Some,
        first_non_int(seq![a, b, c]) is None,
{
    reveal_with_fuel(first_non_float, 5);
    reveal_with_fuel(first_non_int, 5);
    let s = seq![a, b, c];
    assert(s[0] == a && s[1] == b && s[2] == c);
    assert(s.drop_first() =~= seq![b, c]);
    assert(seq![b, c].drop_first() =~= seq![c]);
    assert(seq![b, c][0] == b && seq![b, c][1] == c);
    assert(seq![c].drop_first() =~= Seq::<SpecExpr>::empty());
    assert(seq![c][0] == c);
    assert(crate::eval::as_float(a) is None);
}

proof fn lemma_sum_pair(a: SpecExpr, b: SpecExpr)
    ensures
        sum_ints(seq![a, b]) == as_int(a).unwrap_or(0) + as_int(b).unwrap_or(0),
{
    reveal_with_fuel(sum_ints, 4);
    let s = seq![a, b];
    assert(s.drop_last() =~= seq![a]);
    assert(seq![a].drop_last() =~= Seq::<SpecExpr>::empty());
    assert(s.last() == b && seq![a].last() == a);
}

proof fn lemma_sum_triple(a: SpecExpr, b: SpecExpr, c: SpecExpr)
    ensures
        sum_ints(seq![a, b, c]) == as_int(a).unwrap_or(0) + as_int(b).unwrap_or(0) + as_int(
            c,
        ).unwrap_or(0),
{
    reveal_with_fuel(sum_ints, 2);
    let s = seq![a, b, c];
    assert(s.drop_last() =~= seq![a, b]);
    assert(s.last() == c);
    lemma_sum_pair(a, b);
}

proof fn lemma_prod_pair(a: SpecExpr, b: SpecExpr)
    ensures
        prod_ints(seq![a, b]) == as_int(a).unwrap_or(1) * as_int(b).unwrap_or(1),
{
    reveal_with_fuel(prod_ints, 4);
    let s = seq![a, b];
    assert(s.drop_last() =~= seq![a]);
    assert(seq![a].drop_last() =~= Seq::<SpecExpr>::empty());
    assert(s.last() == b && seq![a].last() == a);
}

proof fn lemma_prod_triple(a: SpecExpr, b: SpecExpr, c: SpecExpr)
    ensures
        prod_ints(seq![a, b, c]) == as_int(a).unwrap_or(1) * as_int(b).unwrap_or(1) * as_int(
            c,
        ).unwrap_or(1),
{
    reveal_with_fuel(prod_ints, 2);
    let s = seq![a, b, c];
    assert(s.drop_last() =~= seq![a, b]);
    assert(s.last() == c);
    lemma_prod_pair(a, b);
}

/// Substitution marks only parameters that have an argument: marks at and
/// beyond the argument count stay as they were.
proof fn lemma_subst_marks(e: SpecExpr, params: Seq<SpecExpr>, args: Seq<SpecExpr>, m: Seq<bool>)
    requires
        args.len() <= m.len(),
        args.len() <= params.len(),
    ensures
        ({
            let (e2, m2) = subst(e, params, args, m);
            m2.len() == m.len() && forall|j: int| args.len() <= j < m.len() ==> m2[j] == m[j]
        }),
    decreases e,
{
    let taken = params.take(args.len() as int);
    match crate::eval::first_pos(taken, e) {
        Some(i) => {
            lemma_first_pos_bound(taken, e);
        },
        None => {
            match e {
                SpecExpr::Call(h, tail) => {
                    lemma_subst_marks(*h, params, args, m);
                    let (h2, m2) = subst(*h, params, args, m);
                    lemma_subst_list_marks(tail, params, args, m2);
                },
                SpecExpr::If(p, th, o) => {
                    lemma_subst_marks(*p, params, args, m);
                    let (p2, m2) = subst(*p, params, args, m);
                    lemma_subst_marks(*th, params, args, m2);
                    let (t2, m3) = subst(*th, params, args, m2);
                    match o {
                        Some(e2) => {
                            lemma_subst_marks(*e2, params, args, m3);
                        },
                        None => {},
                    }
                },
                _ => {},
            }
        },
    }
}

/// The list form of the marks bound.
proof fn lemma_subst_list_marks(
    es: Seq<SpecExpr>,
    params: Seq<SpecExpr>,
    args: Seq<SpecExpr>,
    m: Seq<bool>,
)
    requires
        args.len() <= m.len(),
        args.len() <= params.len(),
    ensures
        ({
            let (es2, m2) = crate::eval::subst_list(es, params, args, m);
            m2.len() == m.len() && forall|j: int| args.len() <= j < m.len() ==> m2[j] == m[j]
        }),
    decreases es,
{
    if es.len() > 0 {
        lemma_subst_marks(es[0], params, args, m);
        let (e2, m2) = subst(es[0], params, args, m);
        lemma_subst_list_marks(es.drop_first(), params, args, m2);
    }
}

/// A found position lies inside the searched run.
proof fn lemma_first_pos_bound(params: Seq<SpecExpr>, e: SpecExpr)
    ensures
        ({
            match crate::eval::first_pos(params, e) {
                Some(k) => k < params.len(),
                None => true,
            }
        }),
    decreases params.len(),
{
    if params.len() > 0 {
        lemma_first_pos_bound(params.drop_first(), e);
    }
}

/// Currying, one argument: applying a two-parameter function to one value
/// substitutes it for the first parameter and leaves a function of the
/// second.
///
/// The premise that substitution hit the first parameter reflects the
/// substitution discipline: a parameter the body never mentions is not
/// consumed by an application.
pub proof fn lemma_curry_partial(
    x_name: Seq<char>,
    y_name: Seq<char>,
    body: SpecExpr,
    a: SpecExpr,
    fuel: nat,
    env: Map<Seq<char>, SpecExpr>,
    t: Seq<(SpecQuery, SpecAnswer)>,
)
    requires
        fuel >= 2,
        self_evaluating(a),
        ({
            let px = SpecExpr::Constant(SpecAtom::Symbol(x_name));
            let py = SpecExpr::Constant(SpecAtom::Symbol(y_name));
            subst(body, seq![px, py], seq![a], seq![false, false]).1[0]
        }),
    ensures
        ({
            let px = SpecExpr::Constant(SpecAtom::Symbol(x_name));
            let py = SpecExpr::Constant(SpecAtom::Symbol(y_name));
            let (body2, marked) = subst(body, seq![px, py], seq![a], seq![false, false]);
            eval_spec(
                fuel,
                env,
                t,
                SpecExpr::Call(
                    Box::new(SpecExpr::Function(seq![px, py], Box::new(body))),
                    seq![a],
                ),
            ) == (SpecEvalResult {
                outcome: SpecOutcome::Val(SpecExpr::Function(seq![py], Box::new(body2))),
                env,
            })
        }),
{
    let px = SpecExpr::Constant(SpecAtom::Symbol(x_name));
    let py = SpecExpr::Constant(SpecAtom::Symbol(y_name));
    let params = seq![px, py];
    let f = (fuel - 1) as nat;
    let head = SpecExpr::Function(params, Box::new(body));
    lemma_self_eval(f, env, t, head);
    lemma_self_eval(f, env, t, a);
    reveal_with_fuel(eval_args, 3);
    assert(seq![a][0] == a);
    assert(seq![a].drop_first() =~= Seq::<SpecExpr>::empty());
    assert(eval_args(f, env, t, seq![a]) matches Ok((vals, env2)) && vals =~= seq![a] && env2
        == env);
    let init = Seq::new(params.len(), |i: int| false);
    assert(init =~= seq![false, false]);
    let (body2, marked) = subst(body, params, seq![a], init);
    lemma_subst_marks(body, params, seq![a], init);
    assert(marked.len() == 2);
    assert(marked[1] == false);
    assert(marked[0]);
    reveal_with_fuel(keep_unmarked, 4);
    assert(params.drop_first() =~= seq![py]);
    assert(marked.drop_first() =~= seq![marked[1]]);
    assert(seq![py].drop_first() =~= Seq::<SpecExpr>::empty());
    assert(seq![marked[1]].drop_first() =~= Seq::<bool>::empty());
    assert(seq![py][0] == py);
    assert(keep_unmarked(params, marked) =~= seq![py]);
    assert(keep_unmarked(params, marked).len() == 1);
}

/// Currying, full application: a two-parameter function applied to two
/// values runs its body with both substituted.
///
/// The premise that substitution hit both parameters reflects the same
/// discipline as the one-argument law.
pub proof fn lemma_curry_full(
    x_name: Seq<char>,
    y_name: Seq<char>,
    body: SpecExpr,
    a: SpecExpr,
    b: SpecExpr,
    fuel: nat,
    env: Map<Seq<char>, SpecExpr>,
    t: Seq<(SpecQuery, SpecAnswer)>,
)
    requires
        fuel >= 2,
        self_evaluating(a),
        self_evaluating(b),
        ({
            let px = SpecExpr::Constant(SpecAtom::Symbol(x_name));
            let py = SpecExpr::Constant(SpecAtom::Symbol(y_name));
            let marked = subst(body, seq![px, py], seq![a, b], seq![false, false]).1;
            marked[0] && marked[1]
        }),
    ensures
        ({
            let px = SpecExpr::Constant(SpecAtom::Symbol(x_name));
            let py = SpecExpr::Constant(SpecAtom::Symbol(y_name));
            let (body2, marked) = subst(body, seq![px, py], seq![a, b], seq![false, false]);
            eval_spec(
                fuel,
                env,
                t,
                SpecExpr::Call(
                    Box::new(SpecExpr::Function(seq![px, py], Box::new(body))),
                    seq![a, b],
                ),
            ) == eval_spec((fuel - 1) as nat, env, t, body2)
        }),
{
    let px = SpecExpr::Constant(SpecAtom::Symbol(x_name));
    let py = SpecExpr::Constant(SpecAtom::Symbol(y_name));
    let params = seq![px, py];
    let f = (fuel - 1) as nat;
    let head = SpecExpr::Function(params, Box::new(body));
    lemma_self_eval(f, env, t, head);
    lemma_self_eval(f, env, t, a);
    lemma_self_eval(f, env, t, b);
    reveal_with_fuel(eval_args, 4);
    assert(seq![a, b][0] == a && seq![a, b][1] == b);
    assert(seq![a, b].drop_first() =~= seq![b]);
    assert(seq![b][0] == b);
    assert(seq![b].drop_first() =~= Seq::<SpecExpr>::empty());
    assert(seq![b] + Seq::<SpecExpr>::empty() =~= seq![b]);
    assert(seq![a] + seq![b] =~= seq![a, b]);
    assert(eval_args(f, env, t, seq![a, b]) matches Ok((vals, env2)) && vals =~= seq![a, b]
        && env2 == env);
    let init = Seq::new(params.len(), |i: int| false);
    assert(init =~= seq![false, false]);
    let (body2, marked) = subst(body, params, seq![a, b], init);
    lemma_subst_marks(body, params, seq![a, b], init);
    assert(marked.len() == 2);
    reveal_with_fuel(keep_unmarked, 4);
    assert(params.drop_first() =~= seq![py]);
    assert(marked.drop_first() =~= seq![marked[1]]);
    assert(seq![py].drop_first() =~= Seq::<SpecExpr>::empty());
    assert(seq![marked[1]].drop_first() =~= Seq::<bool>::empty());
    assert(keep_unmarked(params, marked) =~= Seq::<SpecExpr>::empty());
    assert(keep_unmarked(params, marked).len() == 0);
}

/// A run of digits ends a digit scan exactly where the digits end.
proof fn lemma_digits_end_is(s: Seq<char>, p: int, e: int)
    requires
        0 <= p <= e <= s.len(),
        forall|j: int| p <= j < e ==> crate::bignum::is_digit(#[trigger] s[j]),
        e == s.len() || !crate::bignum::is_digit(s[e]),
    ensures
        digits_end(s, p) == e,
    decreases e - p,
{
    if p < e {
        assert(crate::bignum::is_digit(s[p]));
        lemma_digits_end_is(s, p + 1, e);
    }
}

/// A run of letters ends a letter scan exactly where the letters end.
proof fn lemma_alpha_end_is(s: Seq<char>, p: int, e: int)
    requires
        0 <= p <= e <= s.len(),
        forall|j: int| p <= j < e ==> is_alpha(#[trigger] s[j]),
        e == s.len() || !is_alpha(s[e]),
    ensures
        alpha_end(s, p) == e,
    decreases e - p,
{
    if p < e {
        assert(is_alpha(s[p]));
        lemma_alpha_end_is(s, p + 1, e);
    }
}

/// A run of symbol characters ends a symbol scan exactly where it ends.
proof fn lemma_sym_end_is(s: Seq<char>, p: int, e: int)
    requires
        0 <= p <= e <= s.len(),
        forall|j: int| p <= j < e ==> is_symch(#[trigger] s[j]),
        e == s.len() || !is_symch(s[e]),
    ensures
        sym_end(s, p) == e,
    decreases e - p,
{
    if p < e {
        assert(is_symch(s[p]));
        lemma_sym_end_is(s, p + 1, e);
    }
}

/// The quote scan finds the first double quote.
proof fn lemma_quote_end_is(s: Seq<char>, p: int, e: int)
    requires
        0 <= p <= e <= s.len(),
        forall|j: int| p <= j < e ==> (#[trigger] s[j]) != '"',
        e < s.len() ==> s[e] == '"',
    ensures
        e < s.len() ==> quote_end(s, p) == e,
        e == s.len() ==> quote_end(s, p) == s.len(),
    decreases e - p,
{
    if p < e {
        assert(s[p] != '"');
        lemma_quote_end_is(s, p + 1, e);
    }
}

/// At the end of the input every expression alternative fails, recoverably.
proof fn lemma_expr_at_end(s: Seq<char>)
    ensures
        spec_expr(s, s.len() as int) matches SpecParsed::Soft(_),
{
    let n = s.len() as int;
    assert(ws_end(s, n) == n);
    assert(wsg(s, n) == n);
    assert(spec_builtin(s, n) matches SpecParsed::Soft(_));
    assert(spec_keyword(s, n) matches SpecParsed::Soft(_));
    assert(spec_symbol(s, n) matches SpecParsed::Soft(_));
    assert(spec_number(s, n) matches SpecParsed::Soft(_));
    assert(spec_float(s, n) matches SpecParsed::Soft(_));
    assert(spec_string(s, n) matches SpecParsed::Soft(_));
    assert(spec_char(s, n) matches SpecParsed::Soft(_));
    assert(spec_atom(s, n) matches SpecParsed::Soft(_));
    assert(spec_nil(s, n) matches SpecParsed::Soft(_));
}

/// A whole input that reads as one expression ending at the end reads as a
/// one-expression program.
proof fn lemma_single_expr_program(s: Seq<char>, e: SpecExpr)
    requires
        s.len() > 0,
        spec_expr(s, 0) == SpecParsed::Done(e, s.len() as int),
    ensures
        spec_program(s) == Ok::<Seq<SpecExpr>, crate::parse::SpecParseError>(seq![e]),
{
    lemma_expr_at_end(s);
    assert(spec_exprs(s, s.len() as int) == SpecParsed::Done(
        Seq::<SpecExpr>::empty(),
        s.len() as int,
    ));
    assert(seq![e] + Seq::<SpecExpr>::empty() =~= seq![e]);
}

/// A double literal's shape: an optionally signed digit run, a dot, a
/// digit run, and nothing else.
pub open spec fn float_text(t: Seq<char>) -> bool {
    let q: int = if t.len() > 0 && t[0] == '-' {
        1
    } else {
        0
    };
    &&& q < t.len()
    &&& crate::bignum::is_digit(t[q])
    &&& digits_end(t, q) < t.len()
    &&& t[digits_end(t, q)] == '.'
    &&& digits_end(t, q) + 1 < t.len()
    &&& crate::bignum::is_digit(t[digits_end(t, q) + 1])
    &&& digits_end(t, digits_end(t, q) + 1) == t.len()
}

/// The constants whose printed text reads back as the same constant.
///
/// A double whose text does not have the literal shape is left out: a text
/// like "4", as the host writes a whole double, would read back as an
/// integer. A character that could open a form or an atom is left out:
/// ''('' never closes, and a letter like ''a'' reads back as a quoted
/// symbol. A symbol starting with the word `nil` is left out: the word
/// wins. Numbers must be canonical.
pub open spec fn atom_round_trippable(a: SpecAtom) -> bool {
    match a {
        SpecAtom::Number(t) => canonical(t),
        SpecAtom::Float(t) => float_text(t),
        SpecAtom::Keyword(t) => t.len() >= 1 && forall|j: int|
            0 <= j < t.len() ==> is_alpha(#[trigger] t[j]),
        SpecAtom::Symbol(t) => {
            &&& t.len() >= 1
            &&& is_alpha(t[0])
            &&& forall|j: int| 1 <= j < t.len() ==> is_symch(#[trigger] t[j])
            &&& !(t.len() >= 3 && t[0] == 'n' && t[1] == 'i' && t[2] == 'l')
        },
        SpecAtom::String(t) => forall|j: int| 0 <= j < t.len() ==> (#[trigger] t[j]) != '"',
        SpecAtom::Char(c) => {
            &&& !is_alpha(c)
            &&& !crate::bignum::is_digit(c)
            &&& !is_ws(c)
            &&& c != '(' && c != '\'' && c != '"' && c != ':'
            &&& c != '+' && c != '-' && c != '*' && c != '/' && c != '='
            &&& c != '!' && c != '>' && c != '<' && c != '&' && c != '|'
        },
        SpecAtom::BuiltIn(_) => true,
    }
}

/// Print-parse round trip for constants: parsing the printed text of a
/// round-trippable constant gives that constant back, alone.
pub proof fn lemma_print_parse_constant(a: SpecAtom)
    requires
        atom_round_trippable(a),
    ensures
        spec_program(print_atom(a)) == Ok::<Seq<SpecExpr>, crate::parse::SpecParseError>(
            seq![SpecExpr::Constant(a)],
        ),
{
    let s = print_atom(a);
    let n = s.len() as int;
    assert(n >= 1);
    assert(s.subrange(0, n) =~= s);
    lemma_atom_in_context(s, 0, a);
    assert(ws_end(s, n) == n);
    lemma_single_expr_program(s, SpecExpr::Constant(a));
}

/// Print-parse round trip for `nil`.
pub proof fn lemma_print_parse_nil()
    ensures
        spec_program(print_expr(SpecExpr::Nil)) == Ok::<
            Seq<SpecExpr>,
            crate::parse::SpecParseError,
        >(seq![SpecExpr::Nil]),
{
    let s = print_expr(SpecExpr::Nil);
    assert(s =~= seq!['n', 'i', 'l']);
    assert(s[0] == 'n' && s[1] == 'i' && s[2] == 'l');
    assert(spec_nil(s, 0) == SpecParsed::Done(SpecExpr::Nil, 3));
    assert(spec_expr(s, 0) == SpecParsed::Done(SpecExpr::Nil, 3)) by {
        assert(ws_end(s, 0) == 0);
        assert(ws_end(s, 3) == 3);
    }
    lemma_single_expr_program(s, SpecExpr::Nil);
}

/// A whitespace scan stays inside the input.
proof fn lemma_ws_end_bounds(s: Seq<char>, p: int)
    requires
        0 <= p <= s.len(),
    ensures
        p <= ws_end(s, p) <= s.len(),
    decreases s.len() - p,
{
    if p < s.len() && is_ws(s[p]) {
        lemma_ws_end_bounds(s, p + 1);
    }
}

/// At a closing parenthesis every expression alternative fails, recoverably.
proof fn lemma_expr_at_rparen(s: Seq<char>, p: int)
    requires
        0 <= p < s.len(),
        s[p] == ')',
    ensures
        spec_expr(s, p) matches SpecParsed::Soft(_),
{
    assert(ws_end(s, p) == p);
    assert(wsg(s, p) == p);
    assert(spec_builtin(s, p) matches SpecParsed::Soft(_));
    assert(spec_keyword(s, p) matches SpecParsed::Soft(_));
    assert(spec_symbol(s, p) matches SpecParsed::Soft(_));
    assert(spec_number(s, p) matches SpecParsed::Soft(_));
    assert(spec_float(s, p) matches SpecParsed::Soft(_));
    assert(spec_string(s, p) matches SpecParsed::Soft(_));
    assert(spec_char(s, p) matches SpecParsed::Soft(_));
    assert(spec_atom(s, p) matches SpecParsed::Soft(_));
    assert(spec_nil(s, p) matches SpecParsed::Soft(_));
}

/// In context: a round-trippable constant's printed text, lying at `p` and
/// followed by a space, a closing parenthesis or the end, reads back as that
/// constant, and the read stops right after it (skipping trailing
/// whitespace).
proof fn lemma_atom_in_context(s: Seq<char>, p: int, a: SpecAtom)
    requires
        atom_round_trippable(a),
        0 <= p,
        p + print_atom(a).len() <= s.len(),
        s.subrange(p, p + print_atom(a).len()) == print_atom(a),
        p + print_atom(a).len() < s.len() ==> (s[p + print_atom(a).len()] == ' ' || s[p
            + print_atom(a).len()] == ')'),
    ensures
        spec_expr(s, p) == SpecParsed::Done(
            SpecExpr::Constant(a),
            ws_end(s, p + print_atom(a).len()),
        ),
{
    match a {
        SpecAtom::Number(_) => lemma_atom_ctx_number(s, p, a),
        SpecAtom::Keyword(_) => lemma_atom_ctx_keyword(s, p, a),
        SpecAtom::Symbol(_) => lemma_atom_ctx_symbol(s, p, a),
        SpecAtom::String(_) => lemma_atom_ctx_string(s, p, a),
        SpecAtom::Char(_) => lemma_atom_ctx_char(s, p, a),
        SpecAtom::BuiltIn(_) => lemma_atom_ctx_builtin(s, p, a),
        SpecAtom::Float(_) => lemma_atom_ctx_float(s, p, a),
    }
}

#[verifier::rlimit(100)]
proof fn lemma_atom_ctx_float(s: Seq<char>, p: int, a: SpecAtom)
    requires
        atom_round_trippable(a),
        0 <= p,
        p + print_atom(a).len() <= s.len(),
        s.subrange(p, p + print_atom(a).len()) == print_atom(a),
        p + print_atom(a).len() < s.len() ==> (s[p + print_atom(a).len()] == ' ' || s[p
            + print_atom(a).len()] == ')'),
        a is Float,
    ensures
        spec_expr(s, p) == SpecParsed::Done(
            SpecExpr::Constant(a),
            ws_end(s, p + print_atom(a).len()),
        ),
{
    let t = print_atom(a);
    let n = t.len() as int;
    assert forall|j: int| 0 <= j < n implies s[p + j] == #[trigger] t[j] by {
        assert(s.subrange(p, p + n)[j] == s[p + j]);
    }
    assert(s[p + 0] == t[0]);
    assert(s[p] == t[0]);
    let tx = a->Float_0;
    assert(t == tx);
    let q: int = if tx[0] == '-' {
        1
    } else {
        0
    };
    let d = digits_end(tx, q);
    assert(crate::bignum::is_digit(tx[q]));
    assert(tx[d] == '.');
    assert(crate::bignum::is_digit(tx[d + 1]));
    assert(digits_end(tx, d + 1) == n);
    // carry the digit runs over into the surrounding text
    assert forall|j: int| q <= j < d implies crate::bignum::is_digit(#[trigger] tx[j]) by {
        crate::parse::lemma_digits_upto(tx, q, d, j);
    }
    assert forall|j: int| d + 1 <= j < n implies crate::bignum::is_digit(#[trigger] tx[j]) by {
        crate::parse::lemma_digits_upto(tx, d + 1, n, j);
    }
    assert(digits_end(tx, q) == d);
    assert forall|j: int| p + q <= j < p + d implies crate::bignum::is_digit(
        #[trigger] s[j],
    ) by {
        assert(s[j] == tx[j - p]);
    }
    assert(s[p + d] == '.');
    assert(!crate::bignum::is_digit(s[p + d]));
    lemma_digits_end_is(s, p + q + 1, p + d);
    assert forall|j: int| p + d + 1 <= j < p + n implies crate::bignum::is_digit(
        #[trigger] s[j],
    ) by {
        assert(s[j] == tx[j - p]);
    }
    lemma_digits_end_is(s, p + d + 2, p + n);
    assert(s[p + q] == tx[q]);
    assert(s[p + d + 1] == tx[d + 1]);
    assert forall|j: int| 0 <= j < tx.len() implies s.subrange(p, p + n)[j] == tx[j] by {
        assert(s.subrange(p, p + n)[j] == s[p + j]);
    }
    assert(s.subrange(p, p + n) =~= tx);
    assert(spec_float(s, p) == SpecParsed::Done(a, p + n));
    assert(ws_end(s, p) == p);
    lemma_ws_end_bounds(s, p + n);
    assert(wsg(s, p + n) == ws_end(s, p + n));
    assert(spec_expr(s, p) == SpecParsed::Done(SpecExpr::Constant(a), ws_end(s, p + n)));
}

#[verifier::rlimit(100)]
proof fn lemma_atom_ctx_number(s: Seq<char>, p: int, a: SpecAtom)
    requires
        atom_round_trippable(a),
        0 <= p,
        p + print_atom(a).len() <= s.len(),
        s.subrange(p, p + print_atom(a).len()) == print_atom(a),
        p + print_atom(a).len() < s.len() ==> (s[p + print_atom(a).len()] == ' ' || s[p
            + print_atom(a).len()] == ')'),
        a is Number,
    ensures
        spec_expr(s, p) == SpecParsed::Done(
            SpecExpr::Constant(a),
            ws_end(s, p + print_atom(a).len()),
        ),
{
    let t = print_atom(a);
    let n = t.len() as int;
    assert forall|j: int| 0 <= j < n implies s[p + j] == #[trigger] t[j] by {
        assert(s.subrange(p, p + n)[j] == s[p + j]);
    }
    assert(s[p + 0] == t[0]);
    assert(s[p] == t[0]);
    let tx = a->Number_0;
    lemma_canonical_unique(tx);
    if tx[0] == '-' {
        assert(s[p] == '-');
        assert forall|j: int| p + 1 <= j < p + n implies crate::bignum::is_digit(
            #[trigger] s[j],
        ) by {
            assert(s[j] == tx[j - p]);
            assert(tx.skip(1)[j - p - 1] == tx[j - p]);
            assert(crate::bignum::is_digit(tx.skip(1)[j - p - 1]));
        }
        assert(s[p + 1] == t[1]);
        lemma_digits_end_is(s, p + 2, p + n);
        assert forall|j: int| 0 <= j < tx.skip(1).len() implies s.subrange(p + 1, p + n)[j]
            == tx.skip(1)[j] by {
            assert(s.subrange(p + 1, p + n)[j] == s[p + (j + 1)]);
            assert(s[p + (j + 1)] == t[j + 1]);
            assert(tx.skip(1)[j] == tx[j + 1]);
        }
        assert(s.subrange(p + 1, p + n) =~= tx.skip(1));
        assert(spec_float(s, p) matches SpecParsed::Soft(_));
        assert(spec_number(s, p) == SpecParsed::Done(a, p + n));
    } else {
        assert forall|j: int| p <= j < p + n implies crate::bignum::is_digit(#[trigger] s[j]) by {
            assert(s[j] == tx[j - p]);
        }
        lemma_digits_end_is(s, p + 1, p + n);
        assert forall|j: int| 0 <= j < tx.len() implies s.subrange(p, p + n)[j] == tx[j] by {
            assert(s.subrange(p, p + n)[j] == s[p + j]);
        }
        assert(s.subrange(p, p + n) =~= tx);
        assert(int_of(tx) == crate::bignum::digits_val(tx));
        assert(spec_float(s, p) matches SpecParsed::Soft(_));
        assert(spec_number(s, p) == SpecParsed::Done(a, p + n));
    }
    assert(ws_end(s, p) == p);
    lemma_ws_end_bounds(s, p + n);
    assert(wsg(s, p + n) == ws_end(s, p + n));
    assert(spec_expr(s, p) == SpecParsed::Done(SpecExpr::Constant(a), ws_end(s, p + n)));
}

#[verifier::rlimit(100)]
proof fn lemma_atom_ctx_keyword(s: Seq<char>, p: int, a: SpecAtom)
    requires
        atom_round_trippable(a),
        0 <= p,
        p + print_atom(a).len() <= s.len(),
        s.subrange(p, p + print_atom(a).len()) == print_atom(a),
        p + print_atom(a).len() < s.len() ==> (s[p + print_atom(a).len()] == ' ' || s[p
            + print_atom(a).len()] == ')'),
        a is Keyword,
    ensures
        spec_expr(s, p) == SpecParsed::Done(
            SpecExpr::Constant(a),
            ws_end(s, p + print_atom(a).len()),
        ),
{
    let t = print_atom(a);
    let n = t.len() as int;
    assert forall|j: int| 0 <= j < n implies s[p + j] == #[trigger] t[j] by {
        assert(s.subrange(p, p + n)[j] == s[p + j]);
    }
    assert(s[p + 0] == t[0]);
    assert(s[p] == t[0]);
    let tx = a->Keyword_0;
    assert(t[0] == ':');
    assert(s[p] == ':');
    assert forall|j: int| p + 1 <= j < p + n implies is_alpha(#[trigger] s[j]) by {
        assert(s[j] == t[j - p]);
        assert(t[j - p] == tx[j - p - 1]);
    }
    lemma_alpha_end_is(s, p + 1, p + n);
    assert forall|j: int| 0 <= j < tx.len() implies s.subrange(p + 1, p + n)[j] == tx[j] by {
        assert(s.subrange(p + 1, p + n)[j] == s[p + (j + 1)]);
        assert(s[p + (j + 1)] == t[j + 1]);
    }
    assert(s.subrange(p + 1, p + n) =~= tx);
    assert(spec_keyword(s, p) == SpecParsed::Done(a, p + n));
    assert(ws_end(s, p) == p);
    lemma_ws_end_bounds(s, p + n);
    assert(wsg(s, p + n) == ws_end(s, p + n));
    assert(spec_expr(s, p) == SpecParsed::Done(SpecExpr::Constant(a), ws_end(s, p + n)));
}

#[verifier::rlimit(100)]
proof fn lemma_atom_ctx_symbol(s: Seq<char>, p: int, a: SpecAtom)
    requires
        atom_round_trippable(a),
        0 <= p,
        p + print_atom(a).len() <= s.len(),
        s.subrange(p, p + print_atom(a).len()) == print_atom(a),
        p + print_atom(a).len() < s.len() ==> (s[p + print_atom(a).len()] == ' ' || s[p
            + print_atom(a).len()] == ')'),
        a is Symbol,
    ensures
        spec_expr(s, p) == SpecParsed::Done(
            SpecExpr::Constant(a),
            ws_end(s, p + print_atom(a).len()),
        ),
{
    let t = print_atom(a);
    let n = t.len() as int;
    assert forall|j: int| 0 <= j < n implies s[p + j] == #[trigger] t[j] by {
        assert(s.subrange(p, p + n)[j] == s[p + j]);
    }
    assert(s[p + 0] == t[0]);
    assert(s[p] == t[0]);
    let tx = a->Symbol_0;
    assert(is_alpha(s[p]));
    assert forall|j: int| p + 1 <= j < p + n implies is_symch(#[trigger] s[j]) by {
        assert(s[j] == tx[j - p]);
    }
    lemma_sym_end_is(s, p + 1, p + n);
    assert forall|j: int| 0 <= j < tx.len() implies s.subrange(p, p + n)[j] == tx[j] by {
        assert(s.subrange(p, p + n)[j] == s[p + j]);
    }
    assert(s.subrange(p, p + n) =~= tx);
    assert(spec_nil(s, p) matches SpecParsed::Soft(_)) by {
        if p + 3 <= s.len() && s[p] == 'n' && s[p + 1] == 'i' && s[p + 2] == 'l' {
            if n >= 3 {
                assert(s[p + 1] == t[1] && s[p + 2] == t[2]);
                assert(tx[0] == 'n' && tx[1] == 'i' && tx[2] == 'l');
                assert(false);
            } else if n == 2 {
                assert(s[p + 2] == ' ' || s[p + 2] == ')');
                assert(false);
            } else {
                assert(s[p + 1] == ' ' || s[p + 1] == ')');
                assert(false);
            }
        }
    }
    assert(spec_symbol(s, p) == SpecParsed::Done(a, p + n));
    assert(ws_end(s, p) == p);
    lemma_ws_end_bounds(s, p + n);
    assert(wsg(s, p + n) == ws_end(s, p + n));
    assert(spec_expr(s, p) == SpecParsed::Done(SpecExpr::Constant(a), ws_end(s, p + n)));
}

#[verifier::rlimit(100)]
proof fn lemma_atom_ctx_string(s: Seq<char>, p: int, a: SpecAtom)
    requires
        atom_round_trippable(a),
        0 <= p,
        p + print_atom(a).len() <= s.len(),
        s.subrange(p, p + print_atom(a).len()) == print_atom(a),
        p + print_atom(a).len() < s.len() ==> (s[p + print_atom(a).len()] == ' ' || s[p
            + print_atom(a).len()] == ')'),
        a is String,
    ensures
        spec_expr(s, p) == SpecParsed::Done(
            SpecExpr::Constant(a),
            ws_end(s, p + print_atom(a).len()),
        ),
{
    let t = print_atom(a);
    let n = t.len() as int;
    assert forall|j: int| 0 <= j < n implies s[p + j] == #[trigger] t[j] by {
        assert(s.subrange(p, p + n)[j] == s[p + j]);
    }
    assert(s[p + 0] == t[0]);
    assert(s[p] == t[0]);
    let tx = a->String_0;
    assert(t[0] == '"');
    assert(t[n - 1] == '"');
    assert(s[p] == '"');
    assert(s[p + (n - 1)] == t[n - 1]);
    assert forall|j: int| p + 1 <= j < p + n - 1 implies (#[trigger] s[j]) != '"' by {
        assert(s[j] == t[j - p]);
        assert(t[j - p] == tx[j - p - 1]);
    }
    lemma_quote_end_is(s, p + 1, p + n - 1);
    assert forall|j: int| 0 <= j < tx.len() implies s.subrange(p + 1, p + n - 1)[j] == tx[j] by {
        assert(s.subrange(p + 1, p + n - 1)[j] == s[p + (j + 1)]);
        assert(s[p + (j + 1)] == t[j + 1]);
    }
    assert(s.subrange(p + 1, p + n - 1) =~= tx);
    assert(spec_string(s, p) == SpecParsed::Done(a, p + n));
    assert(ws_end(s, p) == p);
    lemma_ws_end_bounds(s, p + n);
    assert(wsg(s, p + n) == ws_end(s, p + n));
    assert(spec_expr(s, p) == SpecParsed::Done(SpecExpr::Constant(a), ws_end(s, p + n)));
}

#[verifier::rlimit(100)]
proof fn lemma_atom_ctx_char(s: Seq<char>, p: int, a: SpecAtom)
    requires
        atom_round_trippable(a),
        0 <= p,
        p + print_atom(a).len() <= s.len(),
        s.subrange(p, p + print_atom(a).len()) == print_atom(a),
        p + print_atom(a).len() < s.len() ==> (s[p + print_atom(a).len()] == ' ' || s[p
            + print_atom(a).len()] == ')'),
        a is Char,
    ensures
        spec_expr(s, p) == SpecParsed::Done(
            SpecExpr::Constant(a),
            ws_end(s, p + print_atom(a).len()),
        ),
{
    let t = print_atom(a);
    let n = t.len() as int;
    assert forall|j: int| 0 <= j < n implies s[p + j] == #[trigger] t[j] by {
        assert(s.subrange(p, p + n)[j] == s[p + j]);
    }
    assert(s[p + 0] == t[0]);
    assert(s[p] == t[0]);
    let c = a->Char_0;
    assert(s[p + 1] == t[1] && s[p + 2] == t[2]);
    assert(s[p + 1] == c && s[p + 2] == t[2]);
    assert(ws_end(s, p + 1) == p + 1);
    assert(spec_nil(s, p + 1) matches SpecParsed::Soft(_));
    assert(spec_string(s, p + 1) matches SpecParsed::Soft(_));
    assert(spec_char(s, p + 1) matches SpecParsed::Soft(_));
    assert(spec_float(s, p + 1) matches SpecParsed::Soft(_));
    assert(spec_number(s, p + 1) matches SpecParsed::Soft(_));
    assert(spec_builtin(s, p + 1) matches SpecParsed::Soft(_));
    assert(spec_keyword(s, p + 1) matches SpecParsed::Soft(_));
    assert(spec_symbol(s, p + 1) matches SpecParsed::Soft(_));
    assert(spec_atom(s, p + 1) matches SpecParsed::Soft(_));
    assert(spec_expr(s, p + 1) matches SpecParsed::Soft(_));
    assert(spec_char(s, p) == SpecParsed::Done(a, p + 3));
    assert(ws_end(s, p) == p);
    lemma_ws_end_bounds(s, p + 3);
    assert(wsg(s, p + 3) == ws_end(s, p + 3));
    assert(spec_expr(s, p) == SpecParsed::Done(SpecExpr::Constant(a), ws_end(s, p + 3)));
}

#[verifier::rlimit(100)]
proof fn lemma_atom_ctx_builtin(s: Seq<char>, p: int, a: SpecAtom)
    requires
        atom_round_trippable(a),
        0 <= p,
        p + print_atom(a).len() <= s.len(),
        s.subrange(p, p + print_atom(a).len()) == print_atom(a),
        p + print_atom(a).len() < s.len() ==> (s[p + print_atom(a).len()] == ' ' || s[p
            + print_atom(a).len()] == ')'),
        a is BuiltIn,
    ensures
        spec_expr(s, p) == SpecParsed::Done(
            SpecExpr::Constant(a),
            ws_end(s, p + print_atom(a).len()),
        ),
{
    let t = print_atom(a);
    let n = t.len() as int;
    assert forall|j: int| 0 <= j < n implies s[p + j] == #[trigger] t[j] by {
        assert(s.subrange(p, p + n)[j] == s[p + j]);
    }
    assert(s[p + 0] == t[0]);
    assert(s[p] == t[0]);
    if n >= 2 {
        assert(s[p + 1] == t[1]);
    }
    assert(spec_builtin(s, p) == SpecParsed::Done(a, p + n));
    assert(spec_float(s, p) matches SpecParsed::Soft(_));
    assert(spec_number(s, p) matches SpecParsed::Soft(_));
    assert(ws_end(s, p) == p);
    lemma_ws_end_bounds(s, p + n);
    assert(wsg(s, p + n) == ws_end(s, p + n));
    assert(spec_expr(s, p) == SpecParsed::Done(SpecExpr::Constant(a), ws_end(s, p + n)));
}

/// Split a known subrange into its two parts.
proof fn lemma_sub_split(s: Seq<char>, p: int, x: Seq<char>, y: Seq<char>)
    requires
        0 <= p,
        p + x.len() + y.len() <= s.len(),
        s.subrange(p, p + x.len() + y.len()) == x + y,
    ensures
        s.subrange(p, p + x.len()) == x,
        s.subrange(p + x.len(), p + x.len() + y.len()) == y,
{
    let w = s.subrange(p, p + x.len() + y.len());
    assert forall|j: int| 0 <= j < x.len() implies s.subrange(p, p + x.len())[j] == x[j] by {
        assert(s.subrange(p, p + x.len())[j] == s[p + j]);
        assert(w[j] == s[p + j]);
        assert((x + y)[j] == x[j]);
    }
    assert(s.subrange(p, p + x.len()) =~= x);
    assert forall|j: int|
        0 <= j < y.len() implies s.subrange(p + x.len(), p + x.len() + y.len())[j] == y[j] by {
        assert(s.subrange(p + x.len(), p + x.len() + y.len())[j] == s[p + x.len() + j]);
        assert(w[x.len() + j] == s[p + x.len() + j]);
        assert((x + y)[x.len() + j] == y[j]);
    }
    assert(s.subrange(p + x.len(), p + x.len() + y.len()) =~= y);
}

/// A one-character subrange pins the character.
proof fn lemma_sub_char(s: Seq<char>, p: int, c: char)
    requires
        0 <= p,
        p + 1 <= s.len(),
        s.subrange(p, p + 1) == seq![c],
    ensures
        s[p] == c,
{
    assert(s.subrange(p, p + 1)[0] == s[p]);
}

/// The separated form of a nonempty run is a space and the joined form.
proof fn lemma_sep_is_space_joined(xs: Seq<SpecExpr>)
    requires
        xs.len() >= 1,
    ensures
        crate::print::sep_exprs(xs) == seq![' '] + crate::print::joined_exprs(xs),
    decreases xs.len(),
{
    if xs.len() == 1 {
        assert(xs.drop_last() =~= Seq::<SpecExpr>::empty());
        assert(xs[0] == xs.last());
        assert(xs.skip(1) =~= Seq::<SpecExpr>::empty());
        assert(crate::print::sep_exprs(xs) =~= seq![' '] + crate::print::joined_exprs(xs));
    } else {
        lemma_sep_is_space_joined(xs.drop_last());
        assert(xs.take(xs.len() - 1) =~= xs.drop_last());
        assert(xs.take(xs.len() as int) =~= xs);
        crate::print::lemma_joined_step(xs, xs.len() - 1);
        assert(crate::print::joined_exprs(xs) == crate::print::joined_exprs(xs.drop_last())
            + seq![' '] + print_expr(xs.last()));
        assert(crate::print::sep_exprs(xs) == crate::print::sep_exprs(xs.drop_last()) + seq![' ']
            + print_expr(xs.last()));
        assert((seq![' '] + crate::print::joined_exprs(xs.drop_last())) + seq![' '] + print_expr(
            xs.last(),
        ) =~= seq![' '] + (crate::print::joined_exprs(xs.drop_last()) + seq![' '] + print_expr(
            xs.last(),
        )));
    }
}

/// The head of a printed alternative that a call may read: never empty and
/// never whitespace first.
pub open spec fn head_like_keyword(t: Seq<char>) -> bool {
    ||| (t.len() >= 2 && t[0] == 'i' && t[1] == 'f')
    ||| (t.len() >= 2 && t[0] == 'f' && t[1] == 'n')
    ||| (t.len() >= 3 && t[0] == 'l' && t[1] == 'e' && t[2] == 't')
}

/// Expressions whose printed text reads back as the same expression.
///
/// Quotes are left out: their printed forms are lossy by design. Functions
/// and `let` forms are left out of this law's scope; doubles and some
/// characters are left out as the constant law explains. A call's head must
/// not print like the start of a special form.
pub open spec fn printable(e: SpecExpr) -> bool
    decreases e,
{
    match e {
        SpecExpr::Constant(a) => atom_round_trippable(a),
        SpecExpr::Nil => true,
        SpecExpr::Call(h, args) => {
            &&& printable(*h)
            &&& printable_all(args)
            &&& !head_like_keyword(print_expr(*h))
        },
        SpecExpr::If(pr, th, o) => {
            &&& printable(*pr)
            &&& printable(*th)
            &&& match o {
                Some(e2) => printable(*e2),
                None => true,
            }
        },
        SpecExpr::Function(ps, b) => params_ok_all(ps) && printable(*b),
        SpecExpr::Let(bs) => bs.len() >= 1 && bindings_ok_all(bs),
        _ => false,
    }
}

/// A binding the reader produces: a symbol name and a printable value.
pub open spec fn binding_ok(b: (SpecAtom, SpecExpr)) -> bool
    decreases b,
{
    match b.0 {
        SpecAtom::Symbol(tx) => {
            &&& tx.len() >= 1
            &&& is_alpha(tx[0])
            &&& forall|j: int| 1 <= j < tx.len() ==> is_symch(#[trigger] tx[j])
            &&& printable(b.1)
        },
        _ => false,
    }
}

/// Every binding of the run is such a pair.
pub open spec fn bindings_ok_all(s: Seq<(SpecAtom, SpecExpr)>) -> bool
    decreases s,
{
    s.len() == 0 || (binding_ok(s[0]) && bindings_ok_all(s.drop_first()))
}

/// A parameter as the reader produces it: a symbol constant whose text fits
/// the symbol grammar.
pub open spec fn param_ok(e: SpecExpr) -> bool {
    match e {
        SpecExpr::Constant(SpecAtom::Symbol(tx)) => {
            &&& tx.len() >= 1
            &&& is_alpha(tx[0])
            &&& forall|j: int| 1 <= j < tx.len() ==> is_symch(#[trigger] tx[j])
        },
        _ => false,
    }
}

/// Every parameter of the run is such a symbol.
pub open spec fn params_ok_all(s: Seq<SpecExpr>) -> bool
    decreases s,
{
    s.len() == 0 || (param_ok(s[0]) && params_ok_all(s.drop_first()))
}

/// Every expression of the run is printable.
pub open spec fn printable_all(s: Seq<SpecExpr>) -> bool
    decreases s,
{
    s.len() == 0 || (printable(s[0]) && printable_all(s.drop_first()))
}

/// A printable expression prints at least one character, and neither
/// whitespace nor a closing parenthesis first.
proof fn lemma_print_head(e: SpecExpr)
    requires
        printable(e),
    ensures
        print_expr(e).len() >= 1,
        !is_ws(print_expr(e)[0]),
        print_expr(e)[0] != ')',
    decreases e,
{
    match e {
        SpecExpr::Constant(a) => {
            match a {
                SpecAtom::Number(t) => {
                    assert(print_expr(e)[0] == t[0]);
                    if t[0] != '-' {
                        assert(crate::bignum::is_digit(t[0]));
                    }
                },
                SpecAtom::Keyword(t) => {
                    assert(print_expr(e)[0] == ':');
                },
                SpecAtom::Symbol(t) => {
                    assert(print_expr(e)[0] == t[0]);
                },
                SpecAtom::String(t) => {
                    assert(print_expr(e)[0] == '"');
                },
                SpecAtom::Char(c) => {
                    assert(print_expr(e)[0] == '\'');
                },
                SpecAtom::BuiltIn(b) => {
                },
                SpecAtom::Float(t) => {
                    assert(print_expr(e)[0] == t[0]);
                    if t[0] != '-' {
                        assert(crate::bignum::is_digit(t[0]));
                    }
                },
            }
        },
        SpecExpr::Nil => {
            assert(print_expr(e)[0] == 'n');
        },
        SpecExpr::Call(h, args) => {
            assert(print_expr(e)[0] == '(');
        },
        SpecExpr::If(pr, th, o) => {
            assert(print_expr(e)[0] == '(');
        },
        SpecExpr::Function(ps, b) => {
            assert(print_expr(e)[0] == '(');
        },
        SpecExpr::Let(bs) => {
            assert(print_expr(e)[0] == '(');
        },
        _ => {
            assert(false);
        },
    }
}

/// A symbol parameter prints at least one character, a letter first.
proof fn lemma_param_head(e: SpecExpr)
    requires
        param_ok(e),
    ensures
        print_expr(e).len() >= 1,
        is_alpha(print_expr(e)[0]),
        !is_ws(print_expr(e)[0]),
        print_expr(e)[0] != ')',
{
    let tx = e->Constant_0->Symbol_0;
    assert(print_expr(e) == tx);
}

/// Two starting points with the same whitespace scan read the same
/// expression.
proof fn lemma_expr_same_ws(s: Seq<char>, a: int, b: int)
    requires
        wsg(s, a) == wsg(s, b),
    ensures
        spec_expr(s, a) == spec_expr(s, b),
{
}

/// In context: a printable expression's printed text, followed by a space,
/// a closing parenthesis or the end, reads back as that expression.
#[verifier::rlimit(100)]
proof fn lemma_expr_in_context(s: Seq<char>, p: int, e: SpecExpr)
    requires
        printable(e),
        0 <= p,
        p + print_expr(e).len() <= s.len(),
        s.subrange(p, p + print_expr(e).len()) == print_expr(e),
        p + print_expr(e).len() < s.len() ==> (s[p + print_expr(e).len()] == ' ' || s[p
            + print_expr(e).len()] == ')'),
    ensures
        spec_expr(s, p) == SpecParsed::Done(e, ws_end(s, p + print_expr(e).len())),
    decreases e, 1int,
{
    let w = print_expr(e);
    let n = w.len() as int;
    match e {
        SpecExpr::Constant(a) => {
            lemma_atom_in_context(s, p, a);
        },
        SpecExpr::Nil => {
            assert forall|j: int| 0 <= j < n implies s[p + j] == #[trigger] w[j] by {
                assert(s.subrange(p, p + n)[j] == s[p + j]);
            }
            assert(s[p + 0] == 'n' && s[p + 1] == 'i' && s[p + 2] == 'l');
            assert(s[p] == 'n');
            assert(spec_nil(s, p) == SpecParsed::Done(SpecExpr::Nil, p + 3));
            assert(ws_end(s, p) == p);
            lemma_ws_end_bounds(s, p + 3);
            assert(wsg(s, p + 3) == ws_end(s, p + 3));
            assert(spec_expr(s, p) == SpecParsed::Done(e, ws_end(s, p + 3)));
        },
        SpecExpr::Call(h, args) => {
            lemma_call_in_context(s, p, e);
        },
        SpecExpr::If(pr, th, o) => {
            lemma_if_in_context(s, p, e);
        },
        SpecExpr::Function(ps, b) => {
            lemma_fn_in_context(s, p, e);
        },
        SpecExpr::Let(bs) => {
            lemma_let_in_context(s, p, e);
        },
        _ => {
            assert(false);
        },
    }
}

/// The call case of the round-trip induction.
#[verifier::rlimit(100)]
proof fn lemma_call_in_context(s: Seq<char>, p: int, e: SpecExpr)
    requires
        e is Call,
        printable(e),
        0 <= p,
        p + print_expr(e).len() <= s.len(),
        s.subrange(p, p + print_expr(e).len()) == print_expr(e),
        p + print_expr(e).len() < s.len() ==> (s[p + print_expr(e).len()] == ' ' || s[p
            + print_expr(e).len()] == ')'),
    ensures
        spec_expr(s, p) == SpecParsed::Done(e, ws_end(s, p + print_expr(e).len())),
    decreases e, 0int,
{
    let w = print_expr(e);
    let n = w.len() as int;
    let h = *e->Call_0;
    let args = e->Call_1;
    let hp = print_expr(h);
    let hl = hp.len() as int;
    let sep = crate::print::sep_exprs(args);
    let sl = sep.len() as int;
    assert(w == seq!['('] + hp + sep + seq![')']);
    lemma_print_head(h);
    lemma_sub_split(s, p, seq!['('] + hp + sep, seq![')']);
    lemma_sub_char(s, p + 1 + hl + sl, ')');
    lemma_sub_split(s, p, seq!['('] + hp, sep);
    lemma_sub_split(s, p, seq!['('], hp);
    lemma_sub_char(s, p, '(');
    // the head is followed by a space (before the first argument) or by the
    // closing parenthesis
    if args.len() == 0 {
        assert(sl == 0);
        assert(s[p + 1 + hl] == ')');
    } else {
        lemma_sep_is_space_joined(args);
        assert(sep[0] == ' ');
        assert(s.subrange(p + 1 + hl, p + 1 + hl + sl)[0] == s[p + 1 + hl]);
        assert(s[p + 1 + hl] == ' ');
    }
    lemma_expr_in_context(s, p + 1, h);
    let q2 = ws_end(s, p + 1 + hl);
    assert(spec_expr(s, p + 1) == SpecParsed::Done(h, q2));
    let joined = crate::print::joined_exprs(args);
    if args.len() == 0 {
        assert(q2 == p + 1 + hl);
    } else {
        assert(printable(args[0])) by {
            assert(printable_all(args));
        }
        lemma_print_head(args[0]);
        assert(joined[0] == print_expr(args[0])[0]) by {
            assert(joined == print_expr(args[0]) + crate::print::sep_exprs(args.skip(1)));
        }
        lemma_sub_split(s, p + 1 + hl, seq![' '], joined);
        assert(s.subrange(p + 2 + hl, p + 1 + hl + sl)[0] == s[p + 2 + hl]);
        assert(s[p + 2 + hl] == joined[0]);
        assert(!is_ws(s[p + 2 + hl]));
        assert(ws_end(s, p + 2 + hl) == p + 2 + hl);
        assert(q2 == p + 2 + hl);
    }
    // the special forms are not taken: the head does not read like them
    assert(ws_end(s, p + 1) == p + 1);
    assert(!head_like_keyword(hp));
    assert(s[p + 1] == hp[0]) by {
        assert(s.subrange(p + 1, p + 1 + hl)[0] == s[p + 1]);
    }
    if hl >= 2 {
        assert(s[p + 2] == hp[1]) by {
            assert(s.subrange(p + 1, p + 1 + hl)[1] == s[p + 2]);
        }
    } else {
        assert(s[p + 2] == ' ' || s[p + 2] == ')');
    }
    if hl >= 3 {
        assert(s[p + 3] == hp[2]) by {
            assert(s.subrange(p + 1, p + 1 + hl)[2] == s[p + 3]);
        }
    } else if hl == 2 {
        assert(s[p + 3] == ' ' || s[p + 3] == ')');
    }
    assert(crate::parse::spec_if(s, p) matches SpecParsed::Soft(_));
    assert(crate::parse::spec_let(s, p) matches SpecParsed::Soft(_));
    assert(crate::parse::spec_fn_form(s, p) matches SpecParsed::Soft(_));
    // the arguments read back one by one
    if args.len() == 0 {
        lemma_expr_at_rparen(s, q2);
        assert(spec_exprs(s, q2) == SpecParsed::Done(Seq::<SpecExpr>::empty(), q2));
        assert(args =~= Seq::<SpecExpr>::empty());
        assert(crate::parse::spec_call(s, p) == SpecParsed::Done(e, p + n)) by {
            assert(crate::parse::wsg(s, q2) == q2);
            assert(s[q2] == ')');
        }
    } else {
        let jl = joined.len() as int;
        assert(sl == 1 + jl);
        lemma_exprs_in_context(s, p + 2 + hl, args);
        assert(spec_exprs(s, q2) == SpecParsed::Done(args, p + 2 + hl + jl));
        assert(p + 2 + hl + jl == p + 1 + hl + sl);
        assert(crate::parse::spec_call(s, p) == SpecParsed::Done(e, p + n)) by {
            assert(crate::parse::wsg(s, p + 1 + hl + sl) == p + 1 + hl + sl);
            assert(s[p + 1 + hl + sl] == ')');
        }
    }
    assert(ws_end(s, p) == p);
    lemma_ws_end_bounds(s, p + n);
    assert(wsg(s, p + n) == ws_end(s, p + n));
    assert(spec_expr(s, p) == SpecParsed::Done(e, ws_end(s, p + n)));
}

/// The `if` case of the round-trip induction.
#[verifier::rlimit(100)]
proof fn lemma_if_in_context(s: Seq<char>, p: int, e: SpecExpr)
    requires
        e is If,
        printable(e),
        0 <= p,
        p + print_expr(e).len() <= s.len(),
        s.subrange(p, p + print_expr(e).len()) == print_expr(e),
        p + print_expr(e).len() < s.len() ==> (s[p + print_expr(e).len()] == ' ' || s[p
            + print_expr(e).len()] == ')'),
    ensures
        spec_expr(s, p) == SpecParsed::Done(e, ws_end(s, p + print_expr(e).len())),
    decreases e, 0int,
{
    let w = print_expr(e);
    let n = w.len() as int;
    let pr = *e->If_0;
    let th = *e->If_1;
    let o = e->If_2;
    let pp = print_expr(pr);
    let pl = pp.len() as int;
    let tp = print_expr(th);
    let tl = tp.len() as int;
    lemma_print_head(pr);
    lemma_print_head(th);
    match o {
        None => {
            assert(w == seq!['(', 'i', 'f', ' '] + pp + seq![' '] + tp + seq![')']);
            lemma_sub_split(s, p, seq!['(', 'i', 'f', ' '] + pp + seq![' '] + tp, seq![')']);
            lemma_sub_char(s, p + 4 + pl + 1 + tl, ')');
            lemma_sub_split(s, p, seq!['(', 'i', 'f', ' '] + pp + seq![' '], tp);
            lemma_sub_split(s, p, seq!['(', 'i', 'f', ' '] + pp, seq![' ']);
            lemma_sub_char(s, p + 4 + pl, ' ');
            lemma_sub_split(s, p, seq!['(', 'i', 'f', ' '], pp);
            assert(s.subrange(p, p + 4)[0] == s[p]);
            assert(s.subrange(p, p + 4)[1] == s[p + 1]);
            assert(s.subrange(p, p + 4)[2] == s[p + 2]);
            assert(s.subrange(p, p + 4)[3] == s[p + 3]);
            assert(s[p] == '(' && s[p + 1] == 'i' && s[p + 2] == 'f' && s[p + 3] == ' ');
            assert(s[p + 4] == pp[0]) by {
                assert(s.subrange(p + 4, p + 4 + pl)[0] == s[p + 4]);
            }
            assert(ws_end(s, p + 4) == p + 4);
            assert(ws_end(s, p + 3) == p + 4);
            lemma_expr_in_context(s, p + 4, pr);
            assert(s[p + 4 + pl + 1] == tp[0]) by {
                assert(s.subrange(p + 4 + pl + 1, p + 4 + pl + 1 + tl)[0] == s[p + 4 + pl + 1]);
            }
            assert(ws_end(s, p + 4 + pl + 1) == p + 4 + pl + 1);
            assert(ws_end(s, p + 4 + pl) == p + 4 + pl + 1);
            lemma_expr_in_context(s, p + 4 + pl + 1, th);
            let p3 = ws_end(s, p + 4 + pl + 1 + tl);
            assert(p3 == p + 4 + pl + 1 + tl);
            lemma_expr_at_rparen(s, p3);
            assert(ws_end(s, p + 1) == p + 1);
            assert(crate::parse::spec_if(s, p) == SpecParsed::Done(e, p + n)) by {
                assert(crate::parse::wsg(s, p3) == p3);
                assert(s[p3] == ')');
            }
            assert(ws_end(s, p) == p);
            assert(crate::parse::spec_quote(s, p) matches SpecParsed::Soft(_));
            assert(spec_nil(s, p) matches SpecParsed::Soft(_));
            assert(spec_atom(s, p) matches SpecParsed::Soft(_));
            lemma_ws_end_bounds(s, p + n);
            assert(wsg(s, p + n) == ws_end(s, p + n));
            assert(spec_expr(s, p) == SpecParsed::Done(e, ws_end(s, p + n)));
        },
        Some(ob) => {
            let op = print_expr(*ob);
            let ol = op.len() as int;
            lemma_print_head(*ob);
            assert(w == seq!['(', 'i', 'f', ' '] + pp + seq![' '] + tp + seq![' '] + op + seq![
                ')',
            ]);
            lemma_sub_split(
                s,
                p,
                seq!['(', 'i', 'f', ' '] + pp + seq![' '] + tp + seq![' '] + op,
                seq![')'],
            );
            lemma_sub_char(s, p + 4 + pl + 1 + tl + 1 + ol, ')');
            lemma_sub_split(s, p, seq!['(', 'i', 'f', ' '] + pp + seq![' '] + tp + seq![' '], op);
            lemma_sub_split(s, p, seq!['(', 'i', 'f', ' '] + pp + seq![' '] + tp, seq![' ']);
            lemma_sub_char(s, p + 4 + pl + 1 + tl, ' ');
            lemma_sub_split(s, p, seq!['(', 'i', 'f', ' '] + pp + seq![' '], tp);
            lemma_sub_split(s, p, seq!['(', 'i', 'f', ' '] + pp, seq![' ']);
            lemma_sub_char(s, p + 4 + pl, ' ');
            lemma_sub_split(s, p, seq!['(', 'i', 'f', ' '], pp);
            assert(s.subrange(p, p + 4)[0] == s[p]);
            assert(s.subrange(p, p + 4)[1] == s[p + 1]);
            assert(s.subrange(p, p + 4)[2] == s[p + 2]);
            assert(s.subrange(p, p + 4)[3] == s[p + 3]);
            assert(s[p] == '(' && s[p + 1] == 'i' && s[p + 2] == 'f' && s[p + 3] == ' ');
            assert(s[p + 4] == pp[0]) by {
                assert(s.subrange(p + 4, p + 4 + pl)[0] == s[p + 4]);
            }
            assert(ws_end(s, p + 4) == p + 4);
            assert(ws_end(s, p + 3) == p + 4);
            lemma_expr_in_context(s, p + 4, pr);
            assert(s[p + 4 + pl + 1] == tp[0]) by {
                assert(s.subrange(p + 4 + pl + 1, p + 4 + pl + 1 + tl)[0] == s[p + 4 + pl + 1]);
            }
            assert(ws_end(s, p + 4 + pl + 1) == p + 4 + pl + 1);
            assert(ws_end(s, p + 4 + pl) == p + 4 + pl + 1);
            lemma_expr_in_context(s, p + 4 + pl + 1, th);
            let p3 = ws_end(s, p + 4 + pl + 1 + tl);
            assert(s[p + 4 + pl + 1 + tl + 1] == op[0]) by {
                assert(s.subrange(
                    p + 4 + pl + 1 + tl + 1,
                    p + 4 + pl + 1 + tl + 1 + ol,
                )[0] == s[p + 4 + pl + 1 + tl + 1]);
            }
            assert(ws_end(s, p + 4 + pl + 1 + tl + 1) == p + 4 + pl + 1 + tl + 1);
            assert(p3 == p + 4 + pl + 1 + tl + 1);
            lemma_expr_in_context(s, p3, *ob);
            let p4 = ws_end(s, p3 + ol);
            assert(p4 == p3 + ol);
            assert(ws_end(s, p + 1) == p + 1);
            assert(crate::parse::spec_if(s, p) == SpecParsed::Done(e, p + n)) by {
                assert(crate::parse::wsg(s, p4) == p4);
                assert(s[p4] == ')');
            }
            assert(ws_end(s, p) == p);
            assert(crate::parse::spec_quote(s, p) matches SpecParsed::Soft(_));
            assert(spec_nil(s, p) matches SpecParsed::Soft(_));
            assert(spec_atom(s, p) matches SpecParsed::Soft(_));
            lemma_ws_end_bounds(s, p + n);
            assert(wsg(s, p + n) == ws_end(s, p + n));
            assert(spec_expr(s, p) == SpecParsed::Done(e, ws_end(s, p + n)));
        },
    }
}

/// In context: a run of printable expressions printed with single spaces
/// between them, closed by a parenthesis, reads back as the same run.
#[verifier::rlimit(100)]
proof fn lemma_exprs_in_context(s: Seq<char>, p: int, args: Seq<SpecExpr>)
    requires
        printable_all(args),
        0 <= p,
        p + crate::print::joined_exprs(args).len() <= s.len(),
        s.subrange(p, p + crate::print::joined_exprs(args).len())
            == crate::print::joined_exprs(args),
        p + crate::print::joined_exprs(args).len() < s.len(),
        s[p + crate::print::joined_exprs(args).len()] == ')',
    ensures
        spec_exprs(s, p) == SpecParsed::Done(
            args,
            p + crate::print::joined_exprs(args).len(),
        ),
    decreases args, 2int,
{
    let joined = crate::print::joined_exprs(args);
    let jl = joined.len() as int;
    if args.len() == 0 {
        assert(jl == 0);
        lemma_expr_at_rparen(s, p);
        assert(spec_exprs(s, p) == SpecParsed::Done(Seq::<SpecExpr>::empty(), p));
        assert(args =~= Seq::<SpecExpr>::empty());
    } else {
        let a0 = args[0];
        let rest = args.drop_first();
        assert(printable(a0) && printable_all(rest));
        let ap = print_expr(a0);
        let al = ap.len() as int;
        let sep_rest = crate::print::sep_exprs(rest);
        let srl = sep_rest.len() as int;
        assert(joined == ap + sep_rest);
        lemma_sub_split(s, p, ap, sep_rest);
        lemma_print_head(a0);
        if rest.len() == 0 {
            assert(srl == 0);
            assert(s[p + al] == ')');
            lemma_expr_in_context(s, p, a0);
            assert(ws_end(s, p + al) == p + al);
            assert(spec_expr(s, p) == SpecParsed::Done(a0, p + al));
            lemma_expr_at_rparen(s, p + al);
            assert(spec_exprs(s, p + al) == SpecParsed::Done(
                Seq::<SpecExpr>::empty(),
                p + al,
            ));
            assert(seq![a0] + Seq::<SpecExpr>::empty() =~= args);
            assert(spec_exprs(s, p) == SpecParsed::Done(args, p + al));
        } else {
            lemma_sep_is_space_joined(rest);
            let joined_rest = crate::print::joined_exprs(rest);
            let jrl = joined_rest.len() as int;
            assert(srl == 1 + jrl);
            lemma_sub_split(s, p + al, seq![' '], joined_rest);
            lemma_sub_char(s, p + al, ' ');
            assert(printable(rest[0]));
            lemma_print_head(rest[0]);
            assert(joined_rest[0] == print_expr(rest[0])[0]) by {
                assert(joined_rest == print_expr(rest[0]) + crate::print::sep_exprs(
                    rest.drop_first(),
                ));
            }
            assert(s[p + al + 1] == joined_rest[0]) by {
                assert(s.subrange(p + al + 1, p + al + 1 + jrl)[0] == s[p + al + 1]);
            }
            lemma_expr_in_context(s, p, a0);
            assert(ws_end(s, p + al + 1) == p + al + 1);
            assert(ws_end(s, p + al) == p + al + 1);
            assert(spec_expr(s, p) == SpecParsed::Done(a0, p + al + 1));
            lemma_exprs_in_context(s, p + al + 1, rest);
            assert(spec_exprs(s, p + al + 1) == SpecParsed::Done(rest, p + al + 1 + jrl));
            assert(seq![a0] + rest =~= args);
            assert(p + al + 1 + jrl == p + jl);
            assert(spec_exprs(s, p) == SpecParsed::Done(args, p + jl));
        }
    }
}

/// In context: a run of symbol parameters printed with single spaces,
/// closed by a parenthesis, reads back as the same run of constants.
#[verifier::rlimit(100)]
proof fn lemma_params_in_context(s: Seq<char>, p: int, ps: Seq<SpecExpr>)
    requires
        params_ok_all(ps),
        0 <= p,
        p + crate::print::joined_exprs(ps).len() <= s.len(),
        s.subrange(p, p + crate::print::joined_exprs(ps).len()) == crate::print::joined_exprs(
            ps,
        ),
        p + crate::print::joined_exprs(ps).len() < s.len(),
        s[p + crate::print::joined_exprs(ps).len()] == ')',
    ensures
        crate::parse::spec_params(s, p) == SpecParsed::Done(
            ps,
            p + crate::print::joined_exprs(ps).len(),
        ),
    decreases ps,
{
    let joined = crate::print::joined_exprs(ps);
    let jl = joined.len() as int;
    if ps.len() == 0 {
        assert(jl == 0);
        assert(ws_end(s, p) == p);
        assert(wsg(s, p) == p);
        assert(crate::parse::spec_symbol(s, p) matches SpecParsed::Soft(_));
        assert(crate::parse::spec_params(s, p) == SpecParsed::Done(Seq::<SpecExpr>::empty(), p));
        assert(ps =~= Seq::<SpecExpr>::empty());
    } else {
        let a0 = ps[0];
        let rest = ps.drop_first();
        assert(param_ok(a0) && params_ok_all(rest));
        lemma_param_head(a0);
        let tx = a0->Constant_0->Symbol_0;
        let ap = print_expr(a0);
        let al = ap.len() as int;
        assert(ap == tx);
        let sep_rest = crate::print::sep_exprs(rest);
        let srl = sep_rest.len() as int;
        assert(joined == ap + sep_rest);
        lemma_sub_split(s, p, ap, sep_rest);
        assert forall|j: int| 0 <= j < al implies s[p + j] == #[trigger] tx[j] by {
            assert(s.subrange(p, p + al)[j] == s[p + j]);
        }
        assert(s[p + 0] == tx[0]);
        assert(s[p] == tx[0]);
        assert(is_alpha(s[p]));
        assert(ws_end(s, p) == p);
        assert(wsg(s, p) == p);
        if rest.len() == 0 {
            assert(srl == 0);
            assert(s[p + al] == ')');
        } else {
            lemma_sep_is_space_joined(rest);
            assert(sep_rest[0] == ' ');
            assert(s.subrange(p + al, p + al + srl)[0] == s[p + al]);
            assert(s[p + al] == ' ');
        }
        assert(!is_symch(s[p + al]));
        assert forall|j: int| p + 1 <= j < p + al implies is_symch(#[trigger] s[j]) by {
            assert(s[j] == tx[j - p]);
        }
        lemma_sym_end_is(s, p + 1, p + al);
        assert forall|j: int| 0 <= j < tx.len() implies s.subrange(p, p + al)[j] == tx[j] by {
            assert(s.subrange(p, p + al)[j] == s[p + j]);
        }
        assert(s.subrange(p, p + al) =~= tx);
        assert(crate::parse::spec_symbol(s, p) == SpecParsed::Done(
            SpecAtom::Symbol(tx),
            p + al,
        ));
        if rest.len() == 0 {
            assert(ws_end(s, p + al) == p + al);
            assert(wsg(s, p + al) == p + al);
            assert(crate::parse::spec_symbol(s, p + al) matches SpecParsed::Soft(_));
            assert(crate::parse::spec_params(s, p + al) == SpecParsed::Done(
                Seq::<SpecExpr>::empty(),
                p + al,
            ));
            assert(seq![SpecExpr::Constant(SpecAtom::Symbol(tx))] + Seq::<SpecExpr>::empty()
                =~= ps);
            assert(crate::parse::spec_params(s, p) == SpecParsed::Done(ps, p + al));
        } else {
            let joined_rest = crate::print::joined_exprs(rest);
            let jrl = joined_rest.len() as int;
            assert(srl == 1 + jrl);
            lemma_sub_split(s, p + al, seq![' '], joined_rest);
            assert(param_ok(rest[0]));
            lemma_param_head(rest[0]);
            assert(joined_rest[0] == print_expr(rest[0])[0]) by {
                assert(joined_rest == print_expr(rest[0]) + crate::print::sep_exprs(
                    rest.drop_first(),
                ));
            }
            assert(s[p + al + 1] == joined_rest[0]) by {
                assert(s.subrange(p + al + 1, p + al + 1 + jrl)[0] == s[p + al + 1]);
            }
            assert(ws_end(s, p + al + 1) == p + al + 1);
            assert(ws_end(s, p + al) == p + al + 1);
            assert(wsg(s, p + al) == p + al + 1);
            lemma_params_in_context(s, p + al + 1, rest);
            assert(seq![SpecExpr::Constant(SpecAtom::Symbol(tx))] + rest =~= ps);
            assert(p + al + 1 + jrl == p + jl);
            assert(crate::parse::spec_params(s, p) == SpecParsed::Done(ps, p + jl));
        }
    }
}

/// The `fn` case of the round-trip induction.
#[verifier::rlimit(100)]
proof fn lemma_fn_in_context(s: Seq<char>, p: int, e: SpecExpr)
    requires
        e is Function,
        printable(e),
        0 <= p,
        p + print_expr(e).len() <= s.len(),
        s.subrange(p, p + print_expr(e).len()) == print_expr(e),
        p + print_expr(e).len() < s.len() ==> (s[p + print_expr(e).len()] == ' ' || s[p
            + print_expr(e).len()] == ')'),
    ensures
        spec_expr(s, p) == SpecParsed::Done(e, ws_end(s, p + print_expr(e).len())),
    decreases e, 0int,
{
    let w = print_expr(e);
    let n = w.len() as int;
    let ps = e->Function_0;
    let b = *e->Function_1;
    let joined = crate::print::joined_exprs(ps);
    let jl = joined.len() as int;
    let bp = print_expr(b);
    let bl = bp.len() as int;
    lemma_print_head(b);
    assert(w == seq!['(', 'f', 'n', ' ', '('] + joined + seq![')', ' '] + bp + seq![')']);
    lemma_sub_split(s, p, seq!['(', 'f', 'n', ' ', '('] + joined + seq![')', ' '] + bp, seq![
        ')',
    ]);
    lemma_sub_char(s, p + 5 + jl + 2 + bl, ')');
    lemma_sub_split(s, p, seq!['(', 'f', 'n', ' ', '('] + joined + seq![')', ' '], bp);
    lemma_sub_split(s, p, seq!['(', 'f', 'n', ' ', '('] + joined, seq![')', ' ']);
    lemma_sub_split(s, p, seq!['(', 'f', 'n', ' ', '('], joined);
    assert(s.subrange(p, p + 5)[0] == s[p]);
    assert(s.subrange(p, p + 5)[1] == s[p + 1]);
    assert(s.subrange(p, p + 5)[2] == s[p + 2]);
    assert(s.subrange(p, p + 5)[3] == s[p + 3]);
    assert(s.subrange(p, p + 5)[4] == s[p + 4]);
    assert(s[p] == '(' && s[p + 1] == 'f' && s[p + 2] == 'n' && s[p + 3] == ' ' && s[p + 4]
        == '(');
    assert(s.subrange(p + 5 + jl, p + 5 + jl + 2)[0] == s[p + 5 + jl]);
    assert(s.subrange(p + 5 + jl, p + 5 + jl + 2)[1] == s[p + 5 + jl + 1]);
    assert(s[p + 5 + jl] == ')' && s[p + 5 + jl + 1] == ' ');
    assert(s[p + 5 + jl + 2] == bp[0]) by {
        assert(s.subrange(p + 5 + jl + 2, p + 5 + jl + 2 + bl)[0] == s[p + 5 + jl + 2]);
    }
    // the parameters
    assert(params_ok_all(ps));
    lemma_params_in_context(s, p + 5, ps);
    assert(crate::parse::spec_params(s, p + 5) == SpecParsed::Done(ps, p + 5 + jl));
    // positions inside the form
    assert(ws_end(s, p + 1) == p + 1);
    assert(ws_end(s, p + 4) == p + 4);
    assert(ws_end(s, p + 3) == p + 4);
    if ps.len() == 0 {
        assert(ws_end(s, p + 5) == p + 5);
    } else {
        assert(param_ok(ps[0])) by {
            assert(params_ok_all(ps));
        }
        lemma_param_head(ps[0]);
        assert(joined[0] == print_expr(ps[0])[0]) by {
            assert(joined == print_expr(ps[0]) + crate::print::sep_exprs(ps.drop_first()));
        }
        assert(s[p + 5] == joined[0]) by {
            assert(s.subrange(p + 5, p + 5 + jl)[0] == s[p + 5]);
        }
        assert(ws_end(s, p + 5) == p + 5);
    }
    // the closing parenthesis of the parameter list, then the body
    assert(wsg(s, p + 5 + jl) == p + 5 + jl);
    assert(ws_end(s, p + 5 + jl + 2) == p + 5 + jl + 2);
    assert(ws_end(s, p + 5 + jl + 1) == p + 5 + jl + 2);
    lemma_expr_in_context(s, p + 5 + jl + 2, b);
    assert(wsg(s, p + 5 + jl + 1) == wsg(s, p + 5 + jl + 2));
    lemma_expr_same_ws(s, p + 5 + jl + 1, p + 5 + jl + 2);
    let p4 = ws_end(s, p + 5 + jl + 2 + bl);
    assert(p4 == p + 5 + jl + 2 + bl);
    assert(spec_expr(s, p + 5 + jl + 1) == SpecParsed::Done(b, p4));
    assert(crate::parse::spec_fn_form(s, p) == SpecParsed::Done(e, p + n)) by {
        assert(crate::parse::wsg(s, p4) == p4);
        assert(s[p4] == ')');
    }
    // nothing earlier in the alternative order takes the text
    assert(ws_end(s, p) == p);
    assert(crate::parse::spec_quote(s, p) matches SpecParsed::Soft(_));
    assert(spec_nil(s, p) matches SpecParsed::Soft(_));
    assert(spec_atom(s, p) matches SpecParsed::Soft(_));
    assert(crate::parse::spec_if(s, p) matches SpecParsed::Soft(_));
    assert(crate::parse::spec_let(s, p) matches SpecParsed::Soft(_));
    lemma_ws_end_bounds(s, p + n);
    assert(wsg(s, p + n) == ws_end(s, p + n));
    assert(spec_expr(s, p) == SpecParsed::Done(e, ws_end(s, p + n)));
}

/// The separated form of a nonempty run of bindings is a space and the
/// joined form.
proof fn lemma_sep_bindings_is_space_joined(xs: Seq<(SpecAtom, SpecExpr)>)
    requires
        xs.len() >= 1,
    ensures
        crate::print::sep_bindings(xs) == seq![' '] + crate::print::joined_bindings(xs),
    decreases xs.len(),
{
    if xs.len() == 1 {
        assert(xs.drop_last() =~= Seq::<(SpecAtom, SpecExpr)>::empty());
        assert(xs[0] == xs.last());
        assert(xs.skip(1) =~= Seq::<(SpecAtom, SpecExpr)>::empty());
        assert(crate::print::sep_bindings(xs) =~= seq![' '] + crate::print::joined_bindings(xs));
    } else {
        lemma_sep_bindings_is_space_joined(xs.drop_last());
        assert(xs.take(xs.len() - 1) =~= xs.drop_last());
        assert(xs.take(xs.len() as int) =~= xs);
        crate::print::lemma_joined_bindings_step(xs, xs.len() - 1);
        assert((seq![' '] + crate::print::joined_bindings(xs.drop_last())) + seq![' ']
            + crate::print::print_atom(xs.last().0) + seq![' '] + print_expr(xs.last().1) =~= seq![
            ' ',
        ] + (crate::print::joined_bindings(xs.drop_last()) + seq![' '] + crate::print::print_atom(
            xs.last().0,
        ) + seq![' '] + print_expr(xs.last().1)));
    }
}

/// In context: one binding's printed text, a name, a space and a value,
/// reads back as that binding; the read ends past the value and any
/// trailing whitespace.
#[verifier::rlimit(100)]
proof fn lemma_binding_in_context(s: Seq<char>, p: int, b: (SpecAtom, SpecExpr))
    requires
        binding_ok(b),
        0 <= p,
        ({
            let w = crate::print::print_atom(b.0) + seq![' '] + print_expr(b.1);
            &&& p + w.len() <= s.len()
            &&& s.subrange(p, p + w.len()) == w
            &&& p + w.len() < s.len()
            &&& (s[p + w.len()] == ' ' || s[p + w.len()] == ')')
        }),
    ensures
        ({
            let w = crate::print::print_atom(b.0) + seq![' '] + print_expr(b.1);
            crate::parse::spec_binding(s, p) == SpecParsed::Done(b, ws_end(s, p + w.len()))
        }),
    decreases b,
{
    let tx = b.0->Symbol_0;
    let nl = tx.len() as int;
    let vp = print_expr(b.1);
    let vl = vp.len() as int;
    let w = crate::print::print_atom(b.0) + seq![' '] + print_expr(b.1);
    assert(crate::print::print_atom(b.0) == tx);
    lemma_sub_split(s, p, tx + seq![' '], vp);
    lemma_sub_split(s, p, tx, seq![' ']);
    lemma_sub_char(s, p + nl, ' ');
    assert forall|j: int| 0 <= j < nl implies s[p + j] == #[trigger] tx[j] by {
        assert(s.subrange(p, p + nl)[j] == s[p + j]);
    }
    assert(s[p + 0] == tx[0]);
    assert(s[p] == tx[0]);
    assert(is_alpha(s[p]));
    lemma_print_head(b.1);
    assert(s[p + nl + 1] == vp[0]) by {
        assert(s.subrange(p + nl + 1, p + nl + 1 + vl)[0] == s[p + nl + 1]);
    }
    // the name
    assert forall|j: int| p + 1 <= j < p + nl implies is_symch(#[trigger] s[j]) by {
        assert(s[j] == tx[j - p]);
    }
    assert(!is_symch(s[p + nl]));
    lemma_sym_end_is(s, p + 1, p + nl);
    assert forall|j: int| 0 <= j < tx.len() implies s.subrange(p, p + nl)[j] == tx[j] by {
        assert(s.subrange(p, p + nl)[j] == s[p + j]);
    }
    assert(s.subrange(p, p + nl) =~= tx);
    assert(crate::parse::spec_symbol(s, p) == SpecParsed::Done(SpecAtom::Symbol(tx), p + nl));
    // the function sugar is not taken: a name is not a parenthesis
    assert(crate::parse::spec_lambda_binding(s, p) matches SpecParsed::Soft(_));
    // the value
    lemma_expr_in_context(s, p + nl + 1, b.1);
    assert(ws_end(s, p + nl + 1) == p + nl + 1);
    assert(ws_end(s, p + nl) == p + nl + 1);
    assert(wsg(s, p + nl) == wsg(s, p + nl + 1));
    lemma_expr_same_ws(s, p + nl, p + nl + 1);
    assert(spec_expr(s, p + nl) == SpecParsed::Done(b.1, ws_end(s, p + nl + 1 + vl)));
    assert(crate::parse::spec_regular_binding(s, p) == SpecParsed::Done(
        b,
        ws_end(s, p + nl + 1 + vl),
    )) by {
        lemma_ws_end_bounds(s, p + nl + 1 + vl);
    }
}

/// In context: further bindings, printed with single spaces and closed by a
/// parenthesis, read back as the same run.
#[verifier::rlimit(100)]
proof fn lemma_more_bindings_in_context(s: Seq<char>, p: int, bs: Seq<(SpecAtom, SpecExpr)>)
    requires
        bindings_ok_all(bs),
        0 <= p,
        p + crate::print::joined_bindings(bs).len() <= s.len(),
        s.subrange(p, p + crate::print::joined_bindings(bs).len())
            == crate::print::joined_bindings(bs),
        p + crate::print::joined_bindings(bs).len() < s.len(),
        s[p + crate::print::joined_bindings(bs).len()] == ')',
    ensures
        crate::parse::spec_more_bindings(s, p) == SpecParsed::Done(
            bs,
            p + crate::print::joined_bindings(bs).len(),
        ),
    decreases bs,
{
    let joined = crate::print::joined_bindings(bs);
    let jl = joined.len() as int;
    if bs.len() == 0 {
        assert(jl == 0);
        assert(crate::parse::spec_lambda_binding(s, p) matches SpecParsed::Soft(_));
        assert(crate::parse::spec_regular_binding(s, p) matches SpecParsed::Soft(_));
        assert(crate::parse::spec_binding(s, p) matches SpecParsed::Soft(_));
        assert(crate::parse::spec_more_bindings(s, p) == SpecParsed::Done(
            Seq::<(SpecAtom, SpecExpr)>::empty(),
            p,
        ));
        assert(bs =~= Seq::<(SpecAtom, SpecExpr)>::empty());
    } else {
        let b0 = bs[0];
        let rest = bs.drop_first();
        assert(binding_ok(b0) && bindings_ok_all(rest));
        let bw = crate::print::print_atom(b0.0) + seq![' '] + print_expr(b0.1);
        let bwl = bw.len() as int;
        let sep_rest = crate::print::sep_bindings(rest);
        let srl = sep_rest.len() as int;
        assert(joined == bw + sep_rest) by {
            assert(joined == crate::print::print_atom(b0.0) + seq![' '] + print_expr(b0.1)
                + sep_rest);
            assert(crate::print::print_atom(b0.0) + seq![' '] + print_expr(b0.1) + sep_rest =~= (
            crate::print::print_atom(b0.0) + seq![' '] + print_expr(b0.1)) + sep_rest);
        }
        lemma_sub_split(s, p, bw, sep_rest);
        if rest.len() == 0 {
            assert(srl == 0);
            assert(s[p + bwl] == ')');
            lemma_binding_in_context(s, p, b0);
            assert(ws_end(s, p + bwl) == p + bwl);
            assert(crate::parse::spec_binding(s, p) == SpecParsed::Done(b0, p + bwl));
            assert(wsg(s, p + bwl) == p + bwl);
            lemma_more_bindings_in_context(s, p + bwl, rest);
            assert(seq![b0] + Seq::<(SpecAtom, SpecExpr)>::empty() =~= bs);
            assert(crate::parse::spec_more_bindings(s, p) == SpecParsed::Done(bs, p + bwl));
        } else {
            lemma_sep_bindings_is_space_joined(rest);
            let joined_rest = crate::print::joined_bindings(rest);
            let jrl = joined_rest.len() as int;
            assert(srl == 1 + jrl);
            lemma_sub_split(s, p + bwl, seq![' '], joined_rest);
            lemma_sub_char(s, p + bwl, ' ');
            assert(binding_ok(rest[0]));
            let ntx = rest[0].0->Symbol_0;
            assert(joined_rest[0] == ntx[0]) by {
                assert(joined_rest == crate::print::print_atom(rest[0].0) + seq![' ']
                    + print_expr(rest[0].1) + crate::print::sep_bindings(rest.drop_first()));
                assert(crate::print::print_atom(rest[0].0) == ntx);
            }
            assert(s[p + bwl + 1] == joined_rest[0]) by {
                assert(s.subrange(p + bwl + 1, p + bwl + 1 + jrl)[0] == s[p + bwl + 1]);
            }
            assert(is_alpha(s[p + bwl + 1]));
            lemma_binding_in_context(s, p, b0);
            assert(ws_end(s, p + bwl + 1) == p + bwl + 1);
            assert(ws_end(s, p + bwl) == p + bwl + 1);
            assert(crate::parse::spec_binding(s, p) == SpecParsed::Done(b0, p + bwl + 1));
            assert(wsg(s, p + bwl + 1) == p + bwl + 1);
            lemma_more_bindings_in_context(s, p + bwl + 1, rest);
            assert(seq![b0] + rest =~= bs);
            assert(p + bwl + 1 + jrl == p + jl);
            assert(crate::parse::spec_more_bindings(s, p) == SpecParsed::Done(bs, p + jl));
        }
    }
}

/// The `let` case of the round-trip induction.
#[verifier::rlimit(100)]
proof fn lemma_let_in_context(s: Seq<char>, p: int, e: SpecExpr)
    requires
        e is Let,
        printable(e),
        0 <= p,
        p + print_expr(e).len() <= s.len(),
        s.subrange(p, p + print_expr(e).len()) == print_expr(e),
        p + print_expr(e).len() < s.len() ==> (s[p + print_expr(e).len()] == ' ' || s[p
            + print_expr(e).len()] == ')'),
    ensures
        spec_expr(s, p) == SpecParsed::Done(e, ws_end(s, p + print_expr(e).len())),
    decreases e, 0int,
{
    let w = print_expr(e);
    let n = w.len() as int;
    let bs = e->Let_0;
    let joined = crate::print::joined_bindings(bs);
    let jl = joined.len() as int;
    assert(w == seq!['(', 'l', 'e', 't', ' '] + joined + seq![')']);
    lemma_sub_split(s, p, seq!['(', 'l', 'e', 't', ' '] + joined, seq![')']);
    lemma_sub_char(s, p + 5 + jl, ')');
    lemma_sub_split(s, p, seq!['(', 'l', 'e', 't', ' '], joined);
    assert(s.subrange(p, p + 5)[0] == s[p]);
    assert(s.subrange(p, p + 5)[1] == s[p + 1]);
    assert(s.subrange(p, p + 5)[2] == s[p + 2]);
    assert(s.subrange(p, p + 5)[3] == s[p + 3]);
    assert(s.subrange(p, p + 5)[4] == s[p + 4]);
    assert(s[p] == '(' && s[p + 1] == 'l' && s[p + 2] == 'e' && s[p + 3] == 't' && s[p + 4]
        == ' ');
    // the first binding begins with a letter
    assert(bs.len() >= 1);
    assert(binding_ok(bs[0])) by {
        assert(bindings_ok_all(bs));
    }
    let ntx = bs[0].0->Symbol_0;
    assert(joined[0] == ntx[0]) by {
        assert(joined == crate::print::print_atom(bs[0].0) + seq![' '] + print_expr(bs[0].1)
            + crate::print::sep_bindings(bs.drop_first()));
        assert(crate::print::print_atom(bs[0].0) == ntx);
    }
    assert(s[p + 5] == joined[0]) by {
        assert(s.subrange(p + 5, p + 5 + jl)[0] == s[p + 5]);
    }
    assert(is_alpha(s[p + 5]));
    // the bindings
    assert(ws_end(s, p + 5) == p + 5);
    assert(ws_end(s, p + 4) == p + 5);
    let b0 = bs[0];
    let rest = bs.drop_first();
    let bw = crate::print::print_atom(b0.0) + seq![' '] + print_expr(b0.1);
    let bwl = bw.len() as int;
    let sep_rest = crate::print::sep_bindings(rest);
    let srl = sep_rest.len() as int;
    assert(joined == bw + sep_rest) by {
        assert(crate::print::print_atom(b0.0) + seq![' '] + print_expr(b0.1) + sep_rest =~= (
        crate::print::print_atom(b0.0) + seq![' '] + print_expr(b0.1)) + sep_rest);
    }
    lemma_sub_split(s, p + 5, bw, sep_rest);
    if rest.len() == 0 {
        assert(srl == 0);
        assert(s[p + 5 + bwl] == ')');
        assert(bindings_ok_all(rest)) by {
            assert(bindings_ok_all(bs));
        }
        lemma_binding_in_context(s, p + 5, b0);
        assert(ws_end(s, p + 5 + bwl) == p + 5 + bwl);
        assert(crate::parse::spec_binding(s, p + 5) == SpecParsed::Done(b0, p + 5 + bwl));
        assert(wsg(s, p + 5 + bwl) == p + 5 + bwl);
        lemma_more_bindings_in_context(s, p + 5 + bwl, rest);
        assert(seq![b0] + Seq::<(SpecAtom, SpecExpr)>::empty() =~= bs);
        assert(crate::parse::spec_bindings(s, p + 4) == SpecParsed::Done(bs, p + 5 + bwl));
    } else {
        lemma_sep_bindings_is_space_joined(rest);
        let joined_rest = crate::print::joined_bindings(rest);
        let jrl = joined_rest.len() as int;
        assert(srl == 1 + jrl);
        lemma_sub_split(s, p + 5 + bwl, seq![' '], joined_rest);
        lemma_sub_char(s, p + 5 + bwl, ' ');
        assert(bindings_ok_all(rest)) by {
            assert(bindings_ok_all(bs));
        }
        assert(binding_ok(rest[0]));
        let rtx = rest[0].0->Symbol_0;
        assert(joined_rest[0] == rtx[0]) by {
            assert(joined_rest == crate::print::print_atom(rest[0].0) + seq![' '] + print_expr(
                rest[0].1,
            ) + crate::print::sep_bindings(rest.drop_first()));
            assert(crate::print::print_atom(rest[0].0) == rtx);
        }
        assert(s[p + 5 + bwl + 1] == joined_rest[0]) by {
            assert(s.subrange(p + 5 + bwl + 1, p + 5 + bwl + 1 + jrl)[0] == s[p + 5 + bwl + 1]);
        }
        assert(is_alpha(s[p + 5 + bwl + 1]));
        lemma_binding_in_context(s, p + 5, b0);
        assert(ws_end(s, p + 5 + bwl + 1) == p + 5 + bwl + 1);
        assert(ws_end(s, p + 5 + bwl) == p + 5 + bwl + 1);
        assert(crate::parse::spec_binding(s, p + 5) == SpecParsed::Done(b0, p + 5 + bwl + 1));
        assert(wsg(s, p + 5 + bwl + 1) == p + 5 + bwl + 1);
        assert(p + 5 + bwl + 1 + jrl == p + 5 + jl);
        assert(s[p + 5 + bwl + 1 + jrl] == ')');
        lemma_more_bindings_in_context(s, p + 5 + bwl + 1, rest);
        assert(seq![b0] + rest =~= bs);
        assert(p + 5 + bwl + 1 + jrl == p + 5 + jl);
        assert(crate::parse::spec_bindings(s, p + 4) == SpecParsed::Done(bs, p + 5 + jl));
    }
    // the form closes
    assert(crate::parse::spec_let(s, p) == SpecParsed::Done(e, p + n)) by {
        assert(ws_end(s, p + 1) == p + 1);
        assert(crate::parse::wsg(s, p + 5 + jl) == p + 5 + jl);
        assert(s[p + 5 + jl] == ')');
    }
    // nothing earlier in the alternative order takes the text
    assert(ws_end(s, p) == p);
    assert(crate::parse::spec_quote(s, p) matches SpecParsed::Soft(_));
    assert(spec_nil(s, p) matches SpecParsed::Soft(_));
    assert(spec_atom(s, p) matches SpecParsed::Soft(_));
    assert(crate::parse::spec_if(s, p) matches SpecParsed::Soft(_));
    lemma_ws_end_bounds(s, p + n);
    assert(wsg(s, p + n) == ws_end(s, p + n));
    assert(spec_expr(s, p) == SpecParsed::Done(e, ws_end(s, p + n)));
}

/// Print-parse round trip: parsing the printed text of a printable
/// expression gives that expression back, alone.
pub proof fn lemma_print_parse_round_trip(e: SpecExpr)
    requires
        printable(e),
    ensures
        spec_program(print_expr(e)) == Ok::<Seq<SpecExpr>, crate::parse::SpecParseError>(
            seq![e],
        ),
{
    let s = print_expr(e);
    let n = s.len() as int;
    lemma_print_head(e);
    assert(s.subrange(0, n) =~= s);
    lemma_expr_in_context(s, 0, e);
    assert(ws_end(s, n) == n);
    lemma_single_expr_program(s, e);
}

} // verus!
