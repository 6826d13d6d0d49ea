use vstd::prelude::*;
use crate::ast::{Atom, BuiltIn, Expr, SpecAtom, SpecExpr, view_expr, view_exprs, view_bindings, view_exprs_len, view_exprs_index, view_bindings_len, view_bindings_index};
use crate::text::{chars_of, string_of};

verus! {

/// The operator token's text.
pub open spec fn op_text(b: BuiltIn) -> Seq<char> {
    match b {
        BuiltIn::Plus => seq!['+'],
        BuiltIn::Minus => seq!['-'],
        BuiltIn::Times => seq!['*'],
        BuiltIn::Divide => seq!['/'],
        BuiltIn::Equal => seq!['='],
        BuiltIn::NotEqual => seq!['!', '='],
        BuiltIn::Not => seq!['!'],
        BuiltIn::GreaterEqual => seq!['>', '='],
        BuiltIn::Greater => seq!['>'],
        BuiltIn::LessEqual => seq!['<', '='],
        BuiltIn::Less => seq!['<'],
        BuiltIn::And => seq!['&', '&'],
        BuiltIn::Or => seq!['|', '|'],
    }
}

/// The printed form of an atom.
pub open spec fn print_atom(a: SpecAtom) -> Seq<char> {
    match a {
        SpecAtom::Number(s) => s,
        SpecAtom::Float(s) => s,
        SpecAtom::Keyword(s) => seq![':'] + s,
        SpecAtom::BuiltIn(b) => op_text(b),
        SpecAtom::Symbol(s) => s,
        SpecAtom::String(s) => seq!['"'] + s + seq!['"'],
        SpecAtom::Char(c) => seq!['\'', c, '\''],
    }
}

/// The printed form of an expression.
pub open spec fn print_expr(e: SpecExpr) -> Seq<char>
    decreases e,
{
    match e {
        SpecExpr::Constant(a) => print_atom(a),
        SpecExpr::Call(h, t) => seq!['('] + print_expr(*h) + sep_exprs(t) + seq![')'],
        SpecExpr::If(p, t, o) => match o {
            Some(e2) => seq!['(', 'i', 'f', ' '] + print_expr(*p) + seq![' '] + print_expr(*t)
                + seq![' '] + print_expr(*e2) + seq![')'],
            None => seq!['(', 'i', 'f', ' '] + print_expr(*p) + seq![' '] + print_expr(*t)
                + seq![')'],
        },
        SpecExpr::Quote(q) => if q.len() == 0 {
            Seq::empty()
        } else if q.len() == 1 {
            print_expr(q[0])
        } else {
            seq!['('] + joined_exprs(q) + seq![')']
        },
        SpecExpr::Let(bs) => seq!['(', 'l', 'e', 't', ' '] + joined_bindings(bs) + seq![')'],
        SpecExpr::Function(p, b) => seq!['(', 'f', 'n', ' ', '('] + joined_exprs(p) + seq![')', ' ']
            + print_expr(*b) + seq![')'],
        SpecExpr::Nil => seq!['n', 'i', 'l'],
    }
}

/// The arguments of a call: a space before each one.
pub open spec fn sep_exprs(s: Seq<SpecExpr>) -> Seq<char>
    decreases s,
{
    if s.len() == 0 {
        Seq::empty()
    } else {
        sep_exprs(s.drop_last()) + seq![' '] + print_expr(s.last())
    }
}

/// Expressions separated by single spaces.
pub open spec fn joined_exprs(s: Seq<SpecExpr>) -> Seq<char>
    decreases s,
{
    if s.len() == 0 {
        Seq::empty()
    } else {
        print_expr(s[0]) + sep_exprs(s.skip(1))
    }
}

/// The bindings of a `let`: name and value, all separated by single spaces.
pub open spec fn sep_bindings(s: Seq<(SpecAtom, SpecExpr)>) -> Seq<char>
    decreases s,
{
    if s.len() == 0 {
        Seq::empty()
    } else {
        sep_bindings(s.drop_last()) + seq![' '] + print_atom(s.last().0) + seq![' '] + print_expr(
            s.last().1,
        )
    }
}

/// Bindings separated by single spaces.
pub open spec fn joined_bindings(s: Seq<(SpecAtom, SpecExpr)>) -> Seq<char>
    decreases s,
{
    if s.len() == 0 {
        Seq::empty()
    } else {
        print_atom(s[0].0) + seq![' '] + print_expr(s[0].1) + sep_bindings(s.skip(1))
    }
}

pub(crate) proof fn lemma_sep_step(s: Seq<SpecExpr>, i: int)
    requires
        0 <= i < s.len(),
    ensures
        sep_exprs(s.take(i + 1)) == sep_exprs(s.take(i)) + seq![' '] + print_expr(s[i]),
{
    assert(s.take(i + 1).drop_last() =~= s.take(i));
    assert(s.take(i + 1).last() == s[i]);
}

pub(crate) proof fn lemma_joined_step(s: Seq<SpecExpr>, i: int)
    requires
        0 <= i < s.len(),
    ensures
        joined_exprs(s.take(i + 1)) == if i == 0 {
            print_expr(s[0])
        } else {
            joined_exprs(s.take(i)) + seq![' '] + print_expr(s[i])
        },
{
    if i == 0 {
        assert(s.take(1)[0] == s[0]);
        assert(s.take(1).skip(1) =~= Seq::<SpecExpr>::empty());
        assert(sep_exprs(Seq::<SpecExpr>::empty()) == Seq::<char>::empty());
        assert(print_expr(s[0]) + Seq::<char>::empty() =~= print_expr(s[0]));
    } else {
        assert(s.take(i + 1)[0] == s[0]);
        assert(s.take(i)[0] == s[0]);
        assert(s.take(i + 1).skip(1).drop_last() =~= s.take(i).skip(1));
        assert(s.take(i + 1).skip(1).last() == s[i]);
        assert(sep_exprs(s.take(i + 1).skip(1)) == sep_exprs(s.take(i).skip(1)) + seq![' ']
            + print_expr(s[i]));
        assert(print_expr(s[0]) + (sep_exprs(s.take(i).skip(1)) + seq![' '] + print_expr(s[i]))
            =~= (print_expr(s[0]) + sep_exprs(s.take(i).skip(1))) + seq![' '] + print_expr(s[i]));
    }
}

pub(crate) proof fn lemma_joined_bindings_step(s: Seq<(SpecAtom, SpecExpr)>, i: int)
    requires
        0 <= i < s.len(),
    ensures
        joined_bindings(s.take(i + 1)) == if i == 0 {
            print_atom(s[0].0) + seq![' '] + print_expr(s[0].1)
        } else {
            joined_bindings(s.take(i)) + seq![' '] + print_atom(s[i].0) + seq![' '] + print_expr(
                s[i].1,
            )
        },
{
    if i == 0 {
        assert(s.take(1)[0] == s[0]);
        assert(s.take(1).skip(1) =~= Seq::<(SpecAtom, SpecExpr)>::empty());
        assert(sep_bindings(Seq::<(SpecAtom, SpecExpr)>::empty()) == Seq::<char>::empty());
        assert((print_atom(s[0].0) + seq![' '] + print_expr(s[0].1)) + Seq::<char>::empty() =~= (
        print_atom(s[0].0) + seq![' '] + print_expr(s[0].1)));
    } else {
        assert(s.take(i + 1)[0] == s[0]);
        assert(s.take(i)[0] == s[0]);
        assert(s.take(i + 1).skip(1).drop_last() =~= s.take(i).skip(1));
        assert(s.take(i + 1).skip(1).last() == s[i]);
        assert(sep_bindings(s.take(i + 1).skip(1)) == sep_bindings(s.take(i).skip(1)) + seq![' ']
            + print_atom(s[i].0) + seq![' '] + print_expr(s[i].1));
        assert(print_atom(s[0].0) + seq![' '] + print_expr(s[0].1) + (sep_bindings(
            s.take(i).skip(1),
        ) + seq![' '] + print_atom(s[i].0) + seq![' '] + print_expr(s[i].1)) =~= (print_atom(s[0].0)
            + seq![' '] + print_expr(s[0].1) + sep_bindings(s.take(i).skip(1))) + seq![' ']
            + print_atom(s[i].0) + seq![' '] + print_expr(s[i].1));
    }
}

/// Append a string's characters.
fn push_chars(out: &mut Vec<char>, s: &String)
    ensures
        final(out)@ == old(out)@ + s@,
{
    let mut cs = chars_of(s.as_str());
    out.append(&mut cs);
}


/// Append an atom's printed form.
pub fn write_atom(a: &Atom, out: &mut Vec<char>)
    ensures
        final(out)@ == old(out)@ + print_atom(a@),
{
    match a {
        Atom::Number(s) => push_chars(out, s),
        Atom::Float(s) => push_chars(out, s),
        Atom::Keyword(s) => {
            out.push(':');
            push_chars(out, s);
            proof {
                assert(out@ =~= old(out)@ + (seq![':'] + s@));
            }
        },
        Atom::BuiltIn(b) => {
            match b {
                BuiltIn::Plus => out.push('+'),
                BuiltIn::Minus => out.push('-'),
                BuiltIn::Times => out.push('*'),
                BuiltIn::Divide => out.push('/'),
                BuiltIn::Equal => out.push('='),
                BuiltIn::NotEqual => {
                    out.push('!');
                    out.push('=');
                },
                BuiltIn::Not => out.push('!'),
                BuiltIn::GreaterEqual => {
                    out.push('>');
                    out.push('=');
                },
                BuiltIn::Greater => out.push('>'),
                BuiltIn::LessEqual => {
                    out.push('<');
                    out.push('=');
                },
                BuiltIn::Less => out.push('<'),
                BuiltIn::And => {
                    out.push('&');
                    out.push('&');
                },
                BuiltIn::Or => {
                    out.push('|');
                    out.push('|');
                },
            }
            proof {
                assert(out@ =~= old(out)@ + op_text(*b));
            }
        },
        Atom::String(s) => {
            out.push('"');
            push_chars(out, s);
            out.push('"');
            proof {
                assert(out@ =~= old(out)@ + (seq!['"'] + s@ + seq!['"']));
            }
        },
        Atom::Char(c) => {
            out.push('\'');
            out.push(*c);
            out.push('\'');
            proof {
                assert(out@ =~= old(out)@ + seq!['\'', *c, '\'']);
            }
        },
        Atom::Symbol(s) => push_chars(out, s),
    }
}

/// Append call arguments: a space before each one.
fn write_sep(v: &Vec<Expr>, out: &mut Vec<char>)
    ensures
        final(out)@ == old(out)@ + sep_exprs(view_exprs(v@)),
    decreases v@,
{
    let n = v.len();
    proof {
        view_exprs_len(v@);
        assert(view_exprs(v@).take(0) =~= Seq::<SpecExpr>::empty());
        assert(out@ =~= out@ + sep_exprs(view_exprs(v@).take(0)));
    }
    for i in 0..n
        invariant
            n == v@.len(),
            view_exprs(v@).len() == n,
            out@ == old(out)@ + sep_exprs(view_exprs(v@).take(i as int)),
        decreases n - i,
    {
        proof {
            assert(decreases_to!(v@ => v@[i as int]));
        }
        out.push(' ');
        write_expr(&v[i], out);
        proof {
            view_exprs_index(v@, i as int);
            lemma_sep_step(view_exprs(v@), i as int);
            assert(out@ =~= old(out)@ + sep_exprs(view_exprs(v@).take(i as int + 1)));
        }
    }
    proof {
        assert(view_exprs(v@).take(n as int) =~= view_exprs(v@));
    }
}

/// Append expressions separated by single spaces.
fn write_joined(v: &Vec<Expr>, out: &mut Vec<char>)
    ensures
        final(out)@ == old(out)@ + joined_exprs(view_exprs(v@)),
    decreases v@,
{
    let n = v.len();
    proof {
        view_exprs_len(v@);
        assert(view_exprs(v@).take(0) =~= Seq::<SpecExpr>::empty());
        assert(out@ =~= out@ + joined_exprs(view_exprs(v@).take(0)));
    }
    for i in 0..n
        invariant
            n == v@.len(),
            view_exprs(v@).len() == n,
            out@ == old(out)@ + joined_exprs(view_exprs(v@).take(i as int)),
        decreases n - i,
    {
        proof {
            assert(decreases_to!(v@ => v@[i as int]));
        }
        if i > 0 {
            out.push(' ');
        }
        write_expr(&v[i], out);
        proof {
            view_exprs_index(v@, i as int);
            lemma_joined_step(view_exprs(v@), i as int);
            assert(out@ =~= old(out)@ + joined_exprs(view_exprs(v@).take(i as int + 1)));
        }
    }
    proof {
        assert(view_exprs(v@).take(n as int) =~= view_exprs(v@));
    }
}

/// Append bindings separated by single spaces.
fn write_joined_bindings(bs: &Vec<(Atom, Box<Expr>)>, out: &mut Vec<char>)
    ensures
        final(out)@ == old(out)@ + joined_bindings(view_bindings(bs@)),
    decreases bs@,
{
    let n = bs.len();
    proof {
        view_bindings_len(bs@);
        assert(view_bindings(bs@).take(0) =~= Seq::<(SpecAtom, SpecExpr)>::empty());
        assert(out@ =~= out@ + joined_bindings(view_bindings(bs@).take(0)));
    }
    for i in 0..n
        invariant
            n == bs@.len(),
            view_bindings(bs@).len() == n,
            out@ == old(out)@ + joined_bindings(view_bindings(bs@).take(i as int)),
        decreases n - i,
    {
        proof {
            assert(decreases_to!(bs@ => bs@[i as int]));
            assert(decreases_to!(bs@[i as int] => bs@[i as int].1));
            assert(decreases_to!(bs@ => *bs@[i as int].1));
        }
        if i > 0 {
            out.push(' ');
        }
        write_atom(&bs[i].0, out);
        out.push(' ');
        write_expr(&bs[i].1, out);
        proof {
            view_bindings_index(bs@, i as int);
            lemma_joined_bindings_step(view_bindings(bs@), i as int);
            assert(out@ =~= old(out)@ + joined_bindings(view_bindings(bs@).take(i as int + 1)));
        }
    }
    proof {
        assert(view_bindings(bs@).take(n as int) =~= view_bindings(bs@));
    }
}

/// Append an expression's printed form.
pub fn write_expr(e: &Expr, out: &mut Vec<char>)
    ensures
        final(out)@ == old(out)@ + print_expr(e@),
    decreases *e,
{
    match e {
        Expr::Constant(a) => write_atom(a, out),
        Expr::Call(h, t) => {
            out.push('(');
            write_expr(h, out);
            write_sep(t, out);
            out.push(')');
            proof {
                assert(out@ =~= old(out)@ + (seq!['('] + print_expr(view_expr(**h)) + sep_exprs(
                    view_exprs(t@),
                ) + seq![')']));
            }
        },
        Expr::If(p, t, o) => {
            out.push('(');
            out.push('i');
            out.push('f');
            out.push(' ');
            write_expr(p, out);
            out.push(' ');
            write_expr(t, out);
            match o {
                Some(e2) => {
                    out.push(' ');
                    write_expr(e2, out);
                    out.push(')');
                    proof {
                        assert(out@ =~= old(out)@ + (seq!['(', 'i', 'f', ' '] + print_expr(
                            view_expr(**p),
                        ) + seq![' '] + print_expr(view_expr(**t)) + seq![' '] + print_expr(
                            view_expr(**e2),
                        ) + seq![')']));
                    }
                },
                None => {
                    out.push(')');
                    proof {
                        assert(out@ =~= old(out)@ + (seq!['(', 'i', 'f', ' '] + print_expr(
                            view_expr(**p),
                        ) + seq![' '] + print_expr(view_expr(**t)) + seq![')']));
                    }
                },
            }
        },
        Expr::Quote(q) => {
            let n = q.len();
            proof {
                view_exprs_len(q@);
            }
            if n == 0 {
                proof {
                    assert(out@ =~= out@ + Seq::<char>::empty());
                }
            } else if n == 1 {
                proof {
                    assert(decreases_to!(q@ => q@[0]));
                    view_exprs_index(q@, 0);
                }
                write_expr(&q[0], out);
            } else {
                out.push('(');
                write_joined(q, out);
                out.push(')');
                proof {
                    assert(out@ =~= old(out)@ + (seq!['('] + joined_exprs(view_exprs(q@)) + seq![
                        ')',
                    ]));
                }
            }
        },
        Expr::Let(bs) => {
            out.push('(');
            out.push('l');
            out.push('e');
            out.push('t');
            out.push(' ');
            write_joined_bindings(bs, out);
            out.push(')');
            proof {
                assert(out@ =~= old(out)@ + (seq!['(', 'l', 'e', 't', ' '] + joined_bindings(
                    view_bindings(bs@),
                ) + seq![')']));
            }
        },
        Expr::Function(p, b) => {
            out.push('(');
            out.push('f');
            out.push('n');
            out.push(' ');
            out.push('(');
            write_joined(p, out);
            out.push(')');
            out.push(' ');
            write_expr(b, out);
            out.push(')');
            proof {
                assert(out@ =~= old(out)@ + (seq!['(', 'f', 'n', ' ', '('] + joined_exprs(
                    view_exprs(p@),
                ) + seq![')', ' '] + print_expr(view_expr(**b)) + seq![')']));
            }
        },
        Expr::Nil => {
            out.push('n');
            out.push('i');
            out.push('l');
            proof {
                assert(out@ =~= old(out)@ + seq!['n', 'i', 'l']);
            }
        },
    }
}

/// The printed form of an expression, as the REPL shows it.
pub fn to_text(e: &Expr) -> (r: String)
    ensures
        r@ == print_expr(e@),
{
    let mut out: Vec<char> = Vec::new();
    write_expr(e, &mut out);
    proof {
        assert(out@ =~= print_expr(e@));
    }
    string_of(&out)
}

} // verus!
