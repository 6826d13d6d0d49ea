use vstd::prelude::*;
use crate::ast::{Atom, BuiltIn, Expr, SpecAtom, SpecExpr, view_expr, view_exprs, view_bindings, view_exprs_len, view_exprs_index, view_exprs_push, view_bindings_len, view_bindings_index, view_bindings_push};

verus! {

/// One double-precision operation that the library needs an answer for.
///
/// The library itself never computes with doubles: the host owns the
/// platform's floating point. Each double held in the syntax tree is kept as
/// its decimal text, and every operation on doubles is phrased as a query.
/// When evaluation meets a query that the table does not answer, it stops and
/// reports the query; the host computes the answer, adds it to the table and
/// runs again.
#[derive(Debug)]
pub enum FloatQuery {
    /// The canonical text of the double a literal stands for
    /// (the host's default formatting of the parsed value).
    Lit(String),
    /// An arithmetic operation on two doubles given by their texts; the
    /// operator is one of `Plus`, `Minus`, `Times`, `Divide`.
    Bin(BuiltIn, String, String),
    /// An order comparison of two doubles given by their texts; the operator
    /// is one of `Greater`, `Less`, `GreaterEqual`, `LessEqual`.
    Cmp(BuiltIn, String, String),
}

/// The host's answer to a `FloatQuery`: a decimal text for `Lit` and `Bin`,
/// a truth value for `Cmp`.
#[derive(Debug)]
pub enum FloatAnswer {
    Text(String),
    Truth(bool),
}

impl Clone for FloatQuery {
    /// A structural copy.
    fn clone(&self) -> (r: FloatQuery)
        ensures
            r == *self,
    {
        match self {
            FloatQuery::Lit(s) => FloatQuery::Lit(s.clone()),
            FloatQuery::Bin(o, x, y) => FloatQuery::Bin(*o, x.clone(), y.clone()),
            FloatQuery::Cmp(o, x, y) => FloatQuery::Cmp(*o, x.clone(), y.clone()),
        }
    }
}

impl Clone for FloatAnswer {
    /// A structural copy.
    fn clone(&self) -> (r: FloatAnswer)
        ensures
            r == *self,
    {
        match self {
            FloatAnswer::Text(s) => FloatAnswer::Text(s.clone()),
            FloatAnswer::Truth(b) => FloatAnswer::Truth(*b),
        }
    }
}

/// The mathematical shape of a query.
#[verifier::ext_equal]
pub enum SpecQuery {
    Lit(Seq<char>),
    Bin(BuiltIn, Seq<char>, Seq<char>),
    Cmp(BuiltIn, Seq<char>, Seq<char>),
}

/// The mathematical shape of an answer.
#[verifier::ext_equal]
pub enum SpecAnswer {
    Text(Seq<char>),
    Truth(bool),
}

impl View for FloatQuery {
    type V = SpecQuery;

    open spec fn view(&self) -> SpecQuery {
        match self {
            FloatQuery::Lit(s) => SpecQuery::Lit(s@),
            FloatQuery::Bin(o, x, y) => SpecQuery::Bin(*o, x@, y@),
            FloatQuery::Cmp(o, x, y) => SpecQuery::Cmp(*o, x@, y@),
        }
    }
}

impl View for FloatAnswer {
    type V = SpecAnswer;

    open spec fn view(&self) -> SpecAnswer {
        match self {
            FloatAnswer::Text(s) => SpecAnswer::Text(s@),
            FloatAnswer::Truth(b) => SpecAnswer::Truth(*b),
        }
    }
}

/// The first answer recorded for `q`, if any.
pub open spec fn slookup(t: Seq<(SpecQuery, SpecAnswer)>, q: SpecQuery) -> Option<SpecAnswer>
    decreases t.len(),
{
    if t.len() == 0 {
        None
    } else if t[0].0 == q {
        Some(t[0].1)
    } else {
        slookup(t.drop_first(), q)
    }
}

/// The host-filled table of answered double operations.
#[derive(Debug)]
pub struct FloatTable {
    entries: Vec<(FloatQuery, FloatAnswer)>,
}

impl View for FloatTable {
    type V = Seq<(SpecQuery, SpecAnswer)>;

    closed spec fn view(&self) -> Seq<(SpecQuery, SpecAnswer)> {
        Seq::new(self.entries@.len(), |i: int| (self.entries@[i].0@, self.entries@[i].1@))
    }
}

impl FloatTable {
    /// An empty table.
    pub fn new() -> (r: FloatTable)
        ensures
            r@ =~= Seq::<(SpecQuery, SpecAnswer)>::empty(),
    {
        FloatTable { entries: Vec::new() }
    }

    /// Record an answer; the host calls this after computing a query.
    pub fn answer(&mut self, q: FloatQuery, a: FloatAnswer)
        ensures
            final(self)@ =~= old(self)@.push((q@, a@)),
    {
        self.entries.push((q, a));
    }

    /// A copy of the table.
    pub fn duplicate(&self) -> (r: FloatTable)
        ensures
            r@ == self@,
    {
        let mut entries: Vec<(FloatQuery, FloatAnswer)> = Vec::new();
        let n = self.entries.len();
        for i in 0..n
            invariant
                n == self.entries@.len(),
                entries@.len() == i,
                forall|j: int| 0 <= j < i ==> #[trigger] entries@[j] == self.entries@[j],
        {
            let q = self.entries[i].0.clone();
            let a = self.entries[i].1.clone();
            entries.push((q, a));
        }
        let r = FloatTable { entries };
        proof {
            assert(r@ =~= self@);
        }
        r
    }

    /// Look a query up, first entry wins.
    pub fn find(&self, q: &FloatQuery) -> (r: Option<&FloatAnswer>)
        ensures
            match r {
                Some(a) => slookup(self@, q@) == Some(a@),
                None => slookup(self@, q@) is None,
            },
    {
        let n = self.entries.len();
        proof {
            assert(self@.skip(0) =~= self@);
        }
        for i in 0..n
            invariant
                n == self.entries@.len(),
                n == self@.len(),
                slookup(self@, q@) == slookup(self@.skip(i as int), q@),
        {
            proof {
                assert(self@.skip(i as int).len() > 0);
                assert(self@.skip(i as int)[0] == self@[i as int]);
                assert(self@.skip(i as int).drop_first() =~= self@.skip(i as int + 1));
            }
            if query_eq_exec(&self.entries[i].0, q) {
                return Some(&self.entries[i].1);
            }
        }
        proof {
            assert(self@.skip(n as int).len() == 0);
        }
        None
    }
}

/// Structural equality of queries, decided at run time.
pub fn query_eq_exec(a: &FloatQuery, b: &FloatQuery) -> (r: bool)
    ensures
        r == (a@ == b@),
{
    match (a, b) {
        (FloatQuery::Lit(x), FloatQuery::Lit(y)) => {
            let r = *x == *y;
            proof {
                if r {
                    assert(a@ =~= b@);
                }
            }
            r
        },
        (FloatQuery::Bin(o1, x1, y1), FloatQuery::Bin(o2, x2, y2)) => {
            let r = *o1 == *o2 && *x1 == *x2 && *y1 == *y2;
            proof {
                if r {
                    assert(a@ =~= b@);
                }
            }
            r
        },
        (FloatQuery::Cmp(o1, x1, y1), FloatQuery::Cmp(o2, x2, y2)) => {
            let r = *o1 == *o2 && *x1 == *x2 && *y1 == *y2;
            proof {
                if r {
                    assert(a@ =~= b@);
                }
            }
            r
        },
        _ => false,
    }
}

/// Replace every double literal's text by the canonical text the table
/// gives for it; the first unanswered literal stops the walk.
pub open spec fn canon_expr(e: SpecExpr, t: Seq<(SpecQuery, SpecAnswer)>) -> Result<
    SpecExpr,
    SpecQuery,
>
    decreases e,
{
    match e {
        SpecExpr::Constant(SpecAtom::Float(text)) => {
            match slookup(t, SpecQuery::Lit(text)) {
                Some(SpecAnswer::Text(c)) => Ok(SpecExpr::Constant(SpecAtom::Float(c))),
                _ => Err(SpecQuery::Lit(text)),
            }
        },
        SpecExpr::Constant(_) => Ok(e),
        SpecExpr::Nil => Ok(e),
        SpecExpr::Call(h, args) => match canon_expr(*h, t) {
            Err(q) => Err(q),
            Ok(h2) => match canon_list(args, t) {
                Err(q) => Err(q),
                Ok(a2) => Ok(SpecExpr::Call(Box::new(h2), a2)),
            },
        },
        SpecExpr::If(p, th, o) => match canon_expr(*p, t) {
            Err(q) => Err(q),
            Ok(p2) => match canon_expr(*th, t) {
                Err(q) => Err(q),
                Ok(t2) => match o {
                    Some(e2) => match canon_expr(*e2, t) {
                        Err(q) => Err(q),
                        Ok(o2) => Ok(
                            SpecExpr::If(Box::new(p2), Box::new(t2), Some(Box::new(o2))),
                        ),
                    },
                    None => Ok(SpecExpr::If(Box::new(p2), Box::new(t2), None)),
                },
            },
        },
        SpecExpr::Quote(items) => match canon_list(items, t) {
            Err(q) => Err(q),
            Ok(i2) => Ok(SpecExpr::Quote(i2)),
        },
        SpecExpr::Let(bs) => match canon_bindings(bs, t) {
            Err(q) => Err(q),
            Ok(b2) => Ok(SpecExpr::Let(b2)),
        },
        SpecExpr::Function(ps, b) => match canon_list(ps, t) {
            Err(q) => Err(q),
            Ok(p2) => match canon_expr(*b, t) {
                Err(q) => Err(q),
                Ok(b2) => Ok(SpecExpr::Function(p2, Box::new(b2))),
            },
        },
    }
}

/// Canonicalize each expression of a run.
pub open spec fn canon_list(es: Seq<SpecExpr>, t: Seq<(SpecQuery, SpecAnswer)>) -> Result<
    Seq<SpecExpr>,
    SpecQuery,
>
    decreases es,
{
    if es.len() == 0 {
        Ok(Seq::empty())
    } else {
        match canon_expr(es[0], t) {
            Err(q) => Err(q),
            Ok(e2) => match canon_list(es.drop_first(), t) {
                Err(q) => Err(q),
                Ok(rest) => Ok(seq![e2] + rest),
            },
        }
    }
}

/// Canonicalize each binding of a run.
pub open spec fn canon_bindings(bs: Seq<(SpecAtom, SpecExpr)>, t: Seq<(SpecQuery, SpecAnswer)>) -> Result<
    Seq<(SpecAtom, SpecExpr)>,
    SpecQuery,
>
    decreases bs,
{
    if bs.len() == 0 {
        Ok(Seq::empty())
    } else {
        match canon_expr(bs[0].1, t) {
            Err(q) => Err(q),
            Ok(e2) => match canon_bindings(bs.drop_first(), t) {
                Err(q) => Err(q),
                Ok(rest) => Ok(seq![(bs[0].0, e2)] + rest),
            },
        }
    }
}

/// Replace every double literal by the table's canonical text for it.
pub fn canonize(e: &Expr, table: &FloatTable) -> (r: Result<Expr, FloatQuery>)
    ensures
        ({
            match r {
                Ok(e2) => canon_expr(e@, table@) == Ok::<SpecExpr, SpecQuery>(e2@),
                Err(q) => canon_expr(e@, table@) == Err::<SpecExpr, SpecQuery>(q@),
            }
        }),
    decreases *e,
{
    match e {
        Expr::Constant(Atom::Float(text)) => {
            let q = FloatQuery::Lit(text.clone());
            match table.find(&q) {
                Some(FloatAnswer::Text(c)) => Ok(Expr::Constant(Atom::Float(c.clone()))),
                _ => Err(q),
            }
        },
        Expr::Constant(a) => Ok(Expr::Constant(a.clone())),
        Expr::Nil => Ok(Expr::Nil),
        Expr::Call(h, args) => {
            let h2 = match canonize(h, table) {
                Ok(x) => x,
                Err(q) => {
                    return Err(q);
                },
            };
            match canonize_list(args, table) {
                Ok(a2) => Ok(Expr::Call(Box::new(h2), a2)),
                Err(q) => Err(q),
            }
        },
        Expr::If(p, th, o) => {
            let p2 = match canonize(p, table) {
                Ok(x) => x,
                Err(q) => {
                    return Err(q);
                },
            };
            let t2 = match canonize(th, table) {
                Ok(x) => x,
                Err(q) => {
                    return Err(q);
                },
            };
            match o {
                Some(e2) => match canonize(e2, table) {
                    Ok(o2) => Ok(Expr::If(Box::new(p2), Box::new(t2), Some(Box::new(o2)))),
                    Err(q) => Err(q),
                },
                None => Ok(Expr::If(Box::new(p2), Box::new(t2), None)),
            }
        },
        Expr::Quote(items) => match canonize_list(items, table) {
            Ok(i2) => Ok(Expr::Quote(i2)),
            Err(q) => Err(q),
        },
        Expr::Let(bs) => match canonize_bindings(bs, table) {
            Ok(b2) => Ok(Expr::Let(b2)),
            Err(q) => Err(q),
        },
        Expr::Function(ps, b) => {
            let p2 = match canonize_list(ps, table) {
                Ok(x) => x,
                Err(q) => {
                    return Err(q);
                },
            };
            match canonize(b, table) {
                Ok(b2) => Ok(Expr::Function(p2, Box::new(b2))),
                Err(q) => Err(q),
            }
        },
    }
}

/// Canonicalize each expression of a run.
#[verifier::loop_isolation(false)]
fn canonize_list(es: &Vec<Expr>, table: &FloatTable) -> (r: Result<Vec<Expr>, FloatQuery>)
    ensures
        ({
            match r {
                Ok(e2) => canon_list(view_exprs(es@), table@) == Ok::<Seq<SpecExpr>, SpecQuery>(
                    view_exprs(e2@),
                ),
                Err(q) => canon_list(view_exprs(es@), table@) == Err::<Seq<SpecExpr>, SpecQuery>(
                    q@,
                ),
            }
        }),
    decreases es@,
{
    let ghost w = view_exprs(es@);
    proof {
        view_exprs_len(es@);
        assert(w.skip(0) =~= w);
    }
    let n = es.len();
    let mut out: Vec<Expr> = Vec::new();
    proof {
        assert(view_exprs(out@) =~= Seq::<SpecExpr>::empty());
    }
    for i in 0..n
        invariant
            view_exprs(out@).len() == i,
            ({
                match canon_list(w.skip(i as int), table@) {
                    Ok(rest) => canon_list(w, table@) == Ok::<Seq<SpecExpr>, SpecQuery>(
                        view_exprs(out@) + rest,
                    ),
                    Err(q) => canon_list(w, table@) == Err::<Seq<SpecExpr>, SpecQuery>(q),
                }
            }),
        decreases n - i,
    {
        proof {
            assert(decreases_to!(es@ => es@[i as int]));
            view_exprs_index(es@, i as int);
            assert(w.skip(i as int)[0] == w[i as int]);
            assert(w.skip(i as int).drop_first() =~= w.skip(i as int + 1));
        }
        match canonize(&es[i], table) {
            Err(q) => {
                return Err(q);
            },
            Ok(e2) => {
                let ghost out_top = out@;
                out.push(e2);
                proof {
                    view_exprs_len(out@);
                    assert(out@.drop_last() =~= out_top);
                    view_exprs_push(out@.drop_last(), out@.last());
                    match canon_list(w.skip(i as int + 1), table@) {
                        Ok(rest) => {
                            assert((view_exprs(out_top) + (seq![view_expr(out@.last())] + rest))
                                =~= (view_exprs(out@) + rest));
                        },
                        _ => {},
                    }
                }
            },
        }
    }
    proof {
        assert(w.skip(n as int).len() == 0);
        assert(view_exprs(out@) + Seq::<SpecExpr>::empty() =~= view_exprs(out@));
    }
    Ok(out)
}

/// Canonicalize each binding of a run.
#[verifier::loop_isolation(false)]
fn canonize_bindings(bs: &Vec<(Atom, Box<Expr>)>, table: &FloatTable) -> (r: Result<
    Vec<(Atom, Box<Expr>)>,
    FloatQuery,
>)
    ensures
        ({
            match r {
                Ok(b2) => canon_bindings(view_bindings(bs@), table@) == Ok::<
                    Seq<(SpecAtom, SpecExpr)>,
                    SpecQuery,
                >(view_bindings(b2@)),
                Err(q) => canon_bindings(view_bindings(bs@), table@) == Err::<
                    Seq<(SpecAtom, SpecExpr)>,
                    SpecQuery,
                >(q@),
            }
        }),
    decreases bs@,
{
    let ghost w = view_bindings(bs@);
    proof {
        view_bindings_len(bs@);
        assert(w.skip(0) =~= w);
    }
    let n = bs.len();
    let mut out: Vec<(Atom, Box<Expr>)> = Vec::new();
    proof {
        assert(view_bindings(out@) =~= Seq::<(SpecAtom, SpecExpr)>::empty());
    }
    for i in 0..n
        invariant
            view_bindings(out@).len() == i,
            ({
                match canon_bindings(w.skip(i as int), table@) {
                    Ok(rest) => canon_bindings(w, table@) == Ok::<
                        Seq<(SpecAtom, SpecExpr)>,
                        SpecQuery,
                    >(view_bindings(out@) + rest),
                    Err(q) => canon_bindings(w, table@) == Err::<
                        Seq<(SpecAtom, SpecExpr)>,
                        SpecQuery,
                    >(q),
                }
            }),
        decreases n - i,
    {
        proof {
            assert(decreases_to!(bs@ => bs@[i as int]));
            assert(decreases_to!(bs@[i as int] => bs@[i as int].1));
            assert(decreases_to!(bs@ => *bs@[i as int].1));
            view_bindings_index(bs@, i as int);
            assert(w.skip(i as int)[0] == w[i as int]);
            assert(w.skip(i as int).drop_first() =~= w.skip(i as int + 1));
        }
        match canonize(&bs[i].1, table) {
            Err(q) => {
                return Err(q);
            },
            Ok(e2) => {
                let name = bs[i].0.clone();
                let ghost out_top = out@;
                out.push((name, Box::new(e2)));
                proof {
                    view_bindings_len(out@);
                    assert(out@.drop_last() =~= out_top);
                    view_bindings_push(out@.drop_last(), out@.last());
                    match canon_bindings(w.skip(i as int + 1), table@) {
                        Ok(rest) => {
                            assert((view_bindings(out_top) + (seq![
                                (out@.last().0@, view_expr(*out@.last().1)),
                            ] + rest)) =~= (view_bindings(out@) + rest));
                        },
                        _ => {},
                    }
                }
            },
        }
    }
    proof {
        assert(w.skip(n as int).len() == 0);
        assert(view_bindings(out@) + Seq::<(SpecAtom, SpecExpr)>::empty() =~= view_bindings(out@));
    }
    Ok(out)
}

} // verus!
