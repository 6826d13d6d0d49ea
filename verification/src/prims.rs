use vstd::prelude::*;
use crate::ast::{Atom, Expr, SpecAtom, SpecExpr, view_exprs, view_exprs_len, view_exprs_index};
use crate::eval::{EvalError, SpecOutcome, std_call};

verus! {

/// The head of a run of values, if it has one.
pub fn car<T>(tail: &[T]) -> (r: Option<&T>)
    ensures
        match r {
            Some(x) => tail@.len() > 0 && *x == tail@[0],
            None => tail@.len() == 0,
        },
{
    if tail.len() > 0 {
        Some(vstd::slice::slice_index_get(tail, 0))
    } else {
        None
    }
}

/// Everything after the head, if the run is not empty.
pub fn cdr<'a, T>(tail: &'a [T]) -> (r: Option<&'a [T]>)
    ensures
        match r {
            Some(rest) => tail@.len() > 0 && rest@ == tail@.skip(1),
            None => tail@.len() == 0,
        },
{
    if tail.len() > 0 {
        let rest = vstd::slice::slice_subrange(tail, 1, tail.len());
        proof {
            assert(rest@ =~= tail@.skip(1));
        }
        Some(rest)
    } else {
        None
    }
}

/// The in-built list primitives, dispatched by the head: `car` and `cdr` on
/// a quoted list or on `nil`, anything else a type error.
#[verifier::loop_isolation(false)]
pub fn stdlib(head: &Expr, tail: &[Expr]) -> (r: Result<Expr, EvalError>)
    ensures
        ({
            match head@ {
                SpecExpr::Constant(SpecAtom::Symbol(nm)) => match r {
                    Ok(v) => std_call(nm, view_exprs(tail@)) == SpecOutcome::Val(v@),
                    Err(e) => std_call(nm, view_exprs(tail@)) == SpecOutcome::Fail(e@),
                },
                _ => r matches Err(e) && e@ == crate::eval::SpecEvalError::TypeError(
                    "No valid functions found"@,
                ),
            }
        }),
{
    match head {
        Expr::Constant(Atom::Symbol(name)) => {
            let cars = "car".to_owned();
            let cdrs = "cdr".to_owned();
            if *name == cars || *name == cdrs {
                let mut vals: Vec<Expr> = Vec::new();
                let n = tail.len();
                proof {
                    view_exprs_len(tail@);
                    assert(view_exprs(vals@) =~= Seq::<SpecExpr>::empty());
                    assert(view_exprs(tail@).take(0) =~= Seq::<SpecExpr>::empty());
                }
                for i in 0..n
                    invariant
                        n == tail@.len(),
                        vals@.len() == i,
                        view_exprs(vals@) == view_exprs(tail@).take(i as int),
                    decreases n - i,
                {
                    let ghost vals_top = vals@;
                    let e = vstd::slice::slice_index_get(tail, i).clone();
                    vals.push(e);
                    proof {
                        view_exprs_len(vals@);
                        view_exprs_len(tail@);
                        view_exprs_index(tail@, i as int);
                        assert(vals@.drop_last() =~= vals_top);
                        crate::ast::view_exprs_push(vals@.drop_last(), vals@.last());
                        assert(view_exprs(tail@).take(i as int).push(
                            view_exprs(tail@)[i as int],
                        ) =~= view_exprs(tail@).take(i as int + 1));
                    }
                }
                proof {
                    view_exprs_len(tail@);
                    assert(view_exprs(tail@).take(n as int) =~= view_exprs(tail@));
                }
                crate::eval::std_call_exec(name, &vals)
            } else {
                Err(EvalError::TypeError(String::from_str("No valid functions found")))
            }
        },
        _ => Err(EvalError::TypeError(String::from_str("No valid functions found"))),
    }
}

/// The byte range a window of a text covers: the window is given by where it
/// starts inside the whole and how many bytes it has.
pub fn as_byte_range(whole: &str, offset: usize, len: usize) -> (r: (usize, usize))
    requires
        offset + len <= whole@.len(),
    ensures
        r == (offset, (offset + len) as usize),
{
    let n = whole.unicode_len();
    (offset, offset + len)
}

} // verus!
