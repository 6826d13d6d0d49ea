use vstd::prelude::*;

verus! {

/// The primitive operator tokens of the language.
#[derive(Debug, PartialEq, Eq, Structural, Clone, Copy)]
pub enum BuiltIn {
    Plus,
    Minus,
    Times,
    Divide,
    Equal,
    NotEqual,
    Not,
    GreaterEqual,
    Greater,
    LessEqual,
    Less,
    And,
    Or,
}

/// A leaf scalar value of the syntax tree.
///
/// Integers of arbitrary precision are held as their canonical decimal text;
/// doubles are held as their decimal text and are computed with only through
/// the query table of the floats module.
#[derive(Debug)]
pub enum Atom {
    Number(String),
    Float(String),
    Keyword(String),
    BuiltIn(BuiltIn),
    Symbol(String),
    String(String),
    Char(char),
}

/// A node of the syntax tree.
#[derive(Debug)]
pub enum Expr {
    Constant(Atom),
    /// `(head arg1 arg2 ...)`
    Call(Box<Expr>, Vec<Expr>),
    /// `(if predicate then otherwise?)`
    If(Box<Expr>, Box<Expr>, Option<Box<Expr>>),
    /// `'(a b c)`: a literal list, never evaluated
    Quote(Vec<Expr>),
    /// `(let name value ...)`
    Let(Vec<(Atom, Box<Expr>)>),
    /// `(fn (params) body)`
    Function(Vec<Expr>, Box<Expr>),
    /// the empty (and false) sentinel
    Nil,
}

/// The mathematical shape of an atom: its text as a sequence of characters.
#[verifier::ext_equal]
pub enum SpecAtom {
    Number(Seq<char>),
    Float(Seq<char>),
    Keyword(Seq<char>),
    BuiltIn(BuiltIn),
    Symbol(Seq<char>),
    String(Seq<char>),
    Char(char),
}

/// The mathematical shape of an expression; contracts speak of this form.
#[verifier::ext_equal]
pub enum SpecExpr {
    Constant(SpecAtom),
    Call(Box<SpecExpr>, Seq<SpecExpr>),
    If(Box<SpecExpr>, Box<SpecExpr>, Option<Box<SpecExpr>>),
    Quote(Seq<SpecExpr>),
    Let(Seq<(SpecAtom, SpecExpr)>),
    Function(Seq<SpecExpr>, Box<SpecExpr>),
    Nil,
}

impl View for Atom {
    type V = SpecAtom;

    open spec fn view(&self) -> SpecAtom {
        match self {
            Atom::Number(s) => SpecAtom::Number(s@),
            Atom::Float(s) => SpecAtom::Float(s@),
            Atom::Keyword(s) => SpecAtom::Keyword(s@),
            Atom::BuiltIn(b) => SpecAtom::BuiltIn(*b),
            Atom::Symbol(s) => SpecAtom::Symbol(s@),
            Atom::String(s) => SpecAtom::String(s@),
            Atom::Char(c) => SpecAtom::Char(*c),
        }
    }
}

/// The mathematical shape of an expression.
pub open spec fn view_expr(e: Expr) -> SpecExpr
    decreases e,
{
    match e {
        Expr::Constant(a) => SpecExpr::Constant(a@),
        Expr::Call(h, t) => SpecExpr::Call(Box::new(view_expr(*h)), view_exprs(t@)),
        Expr::If(p, t, o) => SpecExpr::If(
            Box::new(view_expr(*p)),
            Box::new(view_expr(*t)),
            match o {
                Some(b) => Some(Box::new(view_expr(*b))),
                None => None,
            },
        ),
        Expr::Quote(q) => SpecExpr::Quote(view_exprs(q@)),
        Expr::Let(b) => SpecExpr::Let(view_bindings(b@)),
        Expr::Function(p, b) => SpecExpr::Function(view_exprs(p@), Box::new(view_expr(*b))),
        Expr::Nil => SpecExpr::Nil,
    }
}

/// The shapes of a sequence of expressions.
pub open spec fn view_exprs(s: Seq<Expr>) -> Seq<SpecExpr>
    decreases s,
{
    if s.len() == 0 {
        Seq::empty()
    } else {
        view_exprs(s.drop_last()).push(view_expr(s.last()))
    }
}

/// The shapes of a sequence of bindings.
pub open spec fn view_bindings(s: Seq<(Atom, Box<Expr>)>) -> Seq<(SpecAtom, SpecExpr)>
    decreases s,
{
    if s.len() == 0 {
        Seq::empty()
    } else {
        view_bindings(s.drop_last()).push((s.last().0@, view_expr(*s.last().1)))
    }
}

impl View for Expr {
    type V = SpecExpr;

    open spec fn view(&self) -> SpecExpr {
        view_expr(*self)
    }
}

pub broadcast proof fn view_exprs_len(s: Seq<Expr>)
    ensures
        (#[trigger] view_exprs(s)).len() == s.len(),
    decreases s,
{
    if s.len() > 0 {
        view_exprs_len(s.drop_last());
    }
}

pub broadcast proof fn view_exprs_index(s: Seq<Expr>, i: int)
    requires
        0 <= i < s.len(),
    ensures
        #[trigger] view_exprs(s)[i] == view_expr(s[i]),
    decreases s,
{
    view_exprs_len(s);
    if i < s.len() - 1 {
        view_exprs_index(s.drop_last(), i);
        assert(s.drop_last()[i] == s[i]);
    }
}

pub broadcast proof fn view_bindings_len(s: Seq<(Atom, Box<Expr>)>)
    ensures
        (#[trigger] view_bindings(s)).len() == s.len(),
    decreases s,
{
    if s.len() > 0 {
        view_bindings_len(s.drop_last());
    }
}

pub broadcast proof fn view_bindings_index(s: Seq<(Atom, Box<Expr>)>, i: int)
    requires
        0 <= i < s.len(),
    ensures
        #[trigger] view_bindings(s)[i] == (s[i].0@, view_expr(*s[i].1)),
    decreases s,
{
    view_bindings_len(s);
    if i < s.len() - 1 {
        view_bindings_index(s.drop_last(), i);
        assert(s.drop_last()[i] == s[i]);
    }
}

pub broadcast proof fn view_exprs_push(s: Seq<Expr>, x: Expr)
    ensures
        #[trigger] view_exprs(s.push(x)) == view_exprs(s).push(view_expr(x)),
{
    assert(s.push(x).drop_last() =~= s);
    assert(s.push(x).last() == x);
}

pub broadcast proof fn view_bindings_push(s: Seq<(Atom, Box<Expr>)>, x: (Atom, Box<Expr>))
    ensures
        #[trigger] view_bindings(s.push(x)) == view_bindings(s).push((x.0@, view_expr(*x.1))),
{
    assert(s.push(x).drop_last() =~= s);
    assert(s.push(x).last() == x);
}

impl Clone for Atom {
    /// A structural copy.
    fn clone(&self) -> (r: Atom)
        ensures
            r@ == self@,
    {
        match self {
            Atom::Number(s) => Atom::Number(s.clone()),
            Atom::Float(s) => Atom::Float(s.clone()),
            Atom::Keyword(s) => Atom::Keyword(s.clone()),
            Atom::BuiltIn(b) => Atom::BuiltIn(*b),
            Atom::Symbol(s) => Atom::Symbol(s.clone()),
            Atom::String(s) => Atom::String(s.clone()),
            Atom::Char(c) => Atom::Char(*c),
        }
    }
}

/// A structural copy of a run of expressions.
fn clone_exprs(v: &Vec<Expr>) -> (r: Vec<Expr>)
    ensures
        view_exprs(r@) == view_exprs(v@),
        r@.len() == v@.len(),
    decreases v@,
{
    let mut r: Vec<Expr> = Vec::new();
    let n = v.len();
    proof {
        assert(v@.take(0) =~= Seq::<Expr>::empty());
    }
    for i in 0..n
        invariant
            n == v@.len(),
            r@.len() == i,
            view_exprs(r@) == view_exprs(v@.take(i as int)),
        decreases n - i,
    {
        let ghost old_r = r@;
        proof {
            assert(decreases_to!(v@ => v@[i as int]));
        }
        let e = v[i].clone();
        r.push(e);
        proof {
            view_exprs_push(old_r, r@.last());
            assert(r@.drop_last() =~= old_r);
            assert(v@.take(i as int + 1).drop_last() =~= v@.take(i as int));
            assert(v@.take(i as int + 1).last() == v@[i as int]);
        }
    }
    proof {
        assert(v@.take(n as int) =~= v@);
    }
    r
}

impl Clone for Expr {
    /// A structural copy.
    fn clone(&self) -> (r: Expr)
        ensures
            r@ == self@,
        decreases *self,
    {
        match self {
            Expr::Constant(a) => Expr::Constant(a.clone()),
            Expr::Call(h, t) => Expr::Call(Box::new((**h).clone()), clone_exprs(t)),
            Expr::If(p, t, o) => Expr::If(
                Box::new((**p).clone()),
                Box::new((**t).clone()),
                match o {
                    Some(b) => Some(Box::new((**b).clone())),
                    None => None,
                },
            ),
            Expr::Quote(q) => Expr::Quote(clone_exprs(q)),
            Expr::Let(bs) => Expr::Let(clone_bindings(bs)),
            Expr::Function(p, b) => Expr::Function(clone_exprs(p), Box::new((**b).clone())),
            Expr::Nil => Expr::Nil,
        }
    }
}

/// A structural copy of a run of bindings.
fn clone_bindings(bs: &Vec<(Atom, Box<Expr>)>) -> (r: Vec<(Atom, Box<Expr>)>)
    ensures
        view_bindings(r@) == view_bindings(bs@),
        r@.len() == bs@.len(),
    decreases bs@,
{
    let mut r: Vec<(Atom, Box<Expr>)> = Vec::new();
    let n = bs.len();
    proof {
        assert(bs@.take(0) =~= Seq::<(Atom, Box<Expr>)>::empty());
    }
    for i in 0..n
        invariant
            n == bs@.len(),
            r@.len() == i,
            view_bindings(r@) == view_bindings(bs@.take(i as int)),
        decreases n - i,
    {
        let ghost old_r = r@;
        proof {
            assert(decreases_to!(bs@ => bs@[i as int]));
            assert(decreases_to!(bs@[i as int] => bs@[i as int].1));
            assert(decreases_to!(bs@ => *bs@[i as int].1));
        }
        let name = bs[i].0.clone();
        let value = Box::new((*bs[i].1).clone());
        r.push((name, value));
        proof {
            view_bindings_push(old_r, r@.last());
            assert(r@.drop_last() =~= old_r);
            assert(bs@.take(i as int + 1).drop_last() =~= bs@.take(i as int));
            assert(bs@.take(i as int + 1).last() == bs@[i as int]);
        }
    }
    proof {
        assert(bs@.take(n as int) =~= bs@);
    }
    r
}

/// Decide structural equality of two atoms.
pub fn atom_eq(a: &Atom, b: &Atom) -> (r: bool)
    ensures
        r == (a@ == b@),
{
    match (a, b) {
        (Atom::Number(x), Atom::Number(y)) => *x == *y,
        (Atom::Float(x), Atom::Float(y)) => *x == *y,
        (Atom::Keyword(x), Atom::Keyword(y)) => *x == *y,
        (Atom::BuiltIn(x), Atom::BuiltIn(y)) => *x == *y,
        (Atom::Symbol(x), Atom::Symbol(y)) => *x == *y,
        (Atom::String(x), Atom::String(y)) => *x == *y,
        (Atom::Char(x), Atom::Char(y)) => *x == *y,
        _ => false,
    }
}

/// Decide structural equality of two runs of expressions.
fn exprs_eq(a: &Vec<Expr>, b: &Vec<Expr>) -> (r: bool)
    ensures
        r == (view_exprs(a@) == view_exprs(b@)),
    decreases a@,
{
    if a.len() != b.len() {
        proof {
            view_exprs_len(a@);
            view_exprs_len(b@);
        }
        return false;
    }
    let n = a.len();
    for i in 0..n
        invariant
            n == a@.len(),
            n == b@.len(),
            forall|j: int| 0 <= j < i ==> view_expr(a@[j]) == view_expr(#[trigger] b@[j]),
        decreases n - i,
    {
        proof {
            assert(decreases_to!(a@ => a@[i as int]));
        }
        if !expr_eq(&a[i], &b[i]) {
            proof {
                view_exprs_len(a@);
                view_exprs_len(b@);
                view_exprs_index(a@, i as int);
                view_exprs_index(b@, i as int);
            }
            return false;
        }
    }
    proof {
        view_exprs_len(a@);
        view_exprs_len(b@);
        assert forall|j: int| 0 <= j < n implies view_exprs(a@)[j] == view_exprs(b@)[j] by {
            view_exprs_index(a@, j);
            view_exprs_index(b@, j);
        }
        assert(view_exprs(a@) =~= view_exprs(b@));
    }
    true
}

/// Decide structural equality of two expressions, as `=` and `!=` do.
pub fn expr_eq(a: &Expr, b: &Expr) -> (r: bool)
    ensures
        r == (a@ == b@),
    decreases *a,
{
    match (a, b) {
        (Expr::Constant(x), Expr::Constant(y)) => atom_eq(x, y),
        (Expr::Call(h1, t1), Expr::Call(h2, t2)) => expr_eq(h1, h2) && exprs_eq(t1, t2),
        (Expr::If(p1, t1, o1), Expr::If(p2, t2, o2)) => expr_eq(p1, p2) && expr_eq(t1, t2)
            && match (o1, o2) {
            (Some(x), Some(y)) => expr_eq(x, y),
            (None, None) => true,
            _ => false,
        },
        (Expr::Quote(q1), Expr::Quote(q2)) => exprs_eq(q1, q2),
        (Expr::Let(b1), Expr::Let(b2)) => bindings_eq(b1, b2),
        (Expr::Function(p1, e1), Expr::Function(p2, e2)) => exprs_eq(p1, p2) && expr_eq(e1, e2),
        (Expr::Nil, Expr::Nil) => true,
        _ => {
            proof {
                view_mismatch(a, b);
            }
            false
        },
    }
}

/// Decide structural equality of two runs of bindings.
fn bindings_eq(b1: &Vec<(Atom, Box<Expr>)>, b2: &Vec<(Atom, Box<Expr>)>) -> (r: bool)
    ensures
        r == (view_bindings(b1@) == view_bindings(b2@)),
    decreases b1@,
{
    if b1.len() != b2.len() {
        proof {
            view_bindings_len(b1@);
            view_bindings_len(b2@);
        }
        return false;
    }
    let n = b1.len();
    for i in 0..n
        invariant
            n == b1@.len(),
            n == b2@.len(),
            forall|j: int|
                0 <= j < i ==> b1@[j].0@ == (#[trigger] b2@[j]).0@ && view_expr(*b1@[j].1)
                    == view_expr(*b2@[j].1),
        decreases n - i,
    {
        proof {
            assert(decreases_to!(b1@ => b1@[i as int]));
            assert(decreases_to!(b1@[i as int] => b1@[i as int].1));
            assert(decreases_to!(b1@ => *b1@[i as int].1));
        }
        let names_equal = atom_eq(&b1[i].0, &b2[i].0);
        if !names_equal || !expr_eq(&b1[i].1, &b2[i].1) {
            proof {
                view_bindings_len(b1@);
                view_bindings_len(b2@);
                view_bindings_index(b1@, i as int);
                view_bindings_index(b2@, i as int);
            }
            return false;
        }
    }
    proof {
        view_bindings_len(b1@);
        view_bindings_len(b2@);
        assert forall|j: int| 0 <= j < n implies view_bindings(b1@)[j] == view_bindings(b2@)[j] by {
            view_bindings_index(b1@, j);
            view_bindings_index(b2@, j);
        }
        assert(view_bindings(b1@) =~= view_bindings(b2@));
    }
    true
}

/// Different constructors have different shapes.
proof fn view_mismatch(a: &Expr, b: &Expr)
    requires
        !(a is Constant && b is Constant),
        !(a is Call && b is Call),
        !(a is If && b is If),
        !(a is Quote && b is Quote),
        !(a is Let && b is Let),
        !(a is Function && b is Function),
        !(a is Nil && b is Nil),
    ensures
        a@ != b@,
{
}

/// The truth a value carries: only `nil` and the empty quote are false.
pub open spec fn spec_truthy(e: SpecExpr) -> bool {
    match e {
        SpecExpr::Nil => false,
        SpecExpr::Quote(items) => items.len() != 0,
        _ => true,
    }
}

/// Decide the truth a value carries.
pub fn truthy(e: &Expr) -> (r: bool)
    ensures
        r == spec_truthy(e@),
{
    match e {
        Expr::Nil => false,
        Expr::Quote(items) => {
            proof {
                view_exprs_len(items@);
            }
            items.len() != 0
        },
        _ => true,
    }
}

} // verus!
