use vstd::prelude::*;
use crate::ast::{Atom, BuiltIn, Expr, SpecAtom, SpecExpr, view_expr, view_exprs, view_bindings, view_exprs_len, view_exprs_index, view_exprs_push, view_bindings_len, view_bindings_push};
use crate::bignum::{canon_of, digits_val, is_digit};

verus! {

/// Where a parse attempt failed and what was expected there.
///
/// Positions count characters from the start of the input.
#[derive(Debug, Clone, PartialEq, Eq)]
pub struct ParseError {
    pub pos: usize,
    pub expected: String,
}

/// The mathematical shape of a parse error.
#[verifier::ext_equal]
pub struct SpecParseError {
    pub pos: int,
    pub expected: Seq<char>,
}

impl View for ParseError {
    type V = SpecParseError;

    open spec fn view(&self) -> SpecParseError {
        SpecParseError { pos: self.pos as int, expected: self.expected@ }
    }
}

/// What one parser attempt yields: a value and the position after it, a
/// failure another alternative may recover from, or a failure past a cut
/// point that stops the whole parse.
#[verifier::ext_equal]
pub enum SpecParsed<T> {
    Done(T, int),
    Soft(SpecParseError),
    Hard(SpecParseError),
}

/// The whitespace the reader skips: space, tab, carriage return, line feed.
pub open spec fn is_ws(c: char) -> bool {
    c == ' ' || c == '\t' || c == '\r' || c == '\n'
}

/// An ASCII letter.
pub open spec fn is_alpha(c: char) -> bool {
    ('a' <= c && c <= 'z') || ('A' <= c && c <= 'Z')
}

/// A character that may continue a symbol.
pub open spec fn is_symch(c: char) -> bool {
    is_alpha(c) || is_digit(c) || c == '_' || c == '-' || c == '>' || c == '<' || c == '?'
}

/// The first position at or after `p` that does not hold whitespace.
pub open spec fn ws_end(s: Seq<char>, p: int) -> int
    decreases s.len() - p,
{
    if p < 0 || p >= s.len() {
        p
    } else if is_ws(s[p]) {
        ws_end(s, p + 1)
    } else {
        p
    }
}

/// The first position at or after `p` that does not hold a digit.
pub open spec fn digits_end(s: Seq<char>, p: int) -> int
    decreases s.len() - p,
{
    if p < 0 || p >= s.len() {
        p
    } else if is_digit(s[p]) {
        digits_end(s, p + 1)
    } else {
        p
    }
}

/// The first position at or after `p` that does not hold a letter.
pub open spec fn alpha_end(s: Seq<char>, p: int) -> int
    decreases s.len() - p,
{
    if p < 0 || p >= s.len() {
        p
    } else if is_alpha(s[p]) {
        alpha_end(s, p + 1)
    } else {
        p
    }
}

/// The first position at or after `p` that cannot continue a symbol.
pub open spec fn sym_end(s: Seq<char>, p: int) -> int
    decreases s.len() - p,
{
    if p < 0 || p >= s.len() {
        p
    } else if is_symch(s[p]) {
        sym_end(s, p + 1)
    } else {
        p
    }
}

/// The position of the next double quote at or after `p`, or the length if
/// there is none.
pub open spec fn quote_end(s: Seq<char>, p: int) -> int
    decreases s.len() - p,
{
    if p < 0 || p >= s.len() {
        s.len() as int
    } else if s[p] == '"' {
        p
    } else {
        quote_end(s, p + 1)
    }
}

/// An operator token, longest first among those sharing a head character.
pub open spec fn spec_builtin(s: Seq<char>, p: int) -> SpecParsed<SpecAtom> {
    if p < s.len() && s[p] == '+' {
        SpecParsed::Done(SpecAtom::BuiltIn(crate::ast::BuiltIn::Plus), p + 1)
    } else if p < s.len() && s[p] == '-' {
        SpecParsed::Done(SpecAtom::BuiltIn(crate::ast::BuiltIn::Minus), p + 1)
    } else if p < s.len() && s[p] == '*' {
        SpecParsed::Done(SpecAtom::BuiltIn(crate::ast::BuiltIn::Times), p + 1)
    } else if p < s.len() && s[p] == '/' {
        SpecParsed::Done(SpecAtom::BuiltIn(crate::ast::BuiltIn::Divide), p + 1)
    } else if p < s.len() && s[p] == '=' {
        SpecParsed::Done(SpecAtom::BuiltIn(crate::ast::BuiltIn::Equal), p + 1)
    } else if p + 1 < s.len() && s[p] == '!' && s[p + 1] == '=' {
        SpecParsed::Done(SpecAtom::BuiltIn(crate::ast::BuiltIn::NotEqual), p + 2)
    } else if p + 1 < s.len() && s[p] == '>' && s[p + 1] == '=' {
        SpecParsed::Done(SpecAtom::BuiltIn(crate::ast::BuiltIn::GreaterEqual), p + 2)
    } else if p + 1 < s.len() && s[p] == '<' && s[p + 1] == '=' {
        SpecParsed::Done(SpecAtom::BuiltIn(crate::ast::BuiltIn::LessEqual), p + 2)
    } else if p < s.len() && s[p] == '>' {
        SpecParsed::Done(SpecAtom::BuiltIn(crate::ast::BuiltIn::Greater), p + 1)
    } else if p < s.len() && s[p] == '<' {
        SpecParsed::Done(SpecAtom::BuiltIn(crate::ast::BuiltIn::Less), p + 1)
    } else if p < s.len() && s[p] == '!' {
        SpecParsed::Done(SpecAtom::BuiltIn(crate::ast::BuiltIn::Not), p + 1)
    } else if p + 1 < s.len() && s[p] == '&' && s[p + 1] == '&' {
        SpecParsed::Done(SpecAtom::BuiltIn(crate::ast::BuiltIn::And), p + 2)
    } else if p + 1 < s.len() && s[p] == '|' && s[p + 1] == '|' {
        SpecParsed::Done(SpecAtom::BuiltIn(crate::ast::BuiltIn::Or), p + 2)
    } else {
        SpecParsed::Soft(SpecParseError { pos: p, expected: "operator"@ })
    }
}

/// A keyword: a colon, then letters; no letter after the colon is a failure
/// past the cut.
pub open spec fn spec_keyword(s: Seq<char>, p: int) -> SpecParsed<SpecAtom> {
    if p < s.len() && s[p] == ':' {
        let e = alpha_end(s, p + 1);
        if e == p + 1 {
            SpecParsed::Hard(SpecParseError { pos: p + 1, expected: "keyword"@ })
        } else {
            SpecParsed::Done(SpecAtom::Keyword(s.subrange(p + 1, e)), e)
        }
    } else {
        SpecParsed::Soft(SpecParseError { pos: p, expected: "keyword"@ })
    }
}

/// A symbol: a letter, then letters, digits or `_ - > < ?`.
pub open spec fn spec_symbol(s: Seq<char>, p: int) -> SpecParsed<SpecAtom> {
    if p < s.len() && is_alpha(s[p]) {
        let e = sym_end(s, p + 1);
        SpecParsed::Done(SpecAtom::Symbol(s.subrange(p, e)), e)
    } else {
        SpecParsed::Soft(SpecParseError { pos: p, expected: "symbol"@ })
    }
}

/// An integer: digits, or a minus sign and digits, read at arbitrary
/// precision into canonical decimal text.
pub open spec fn spec_number(s: Seq<char>, p: int) -> SpecParsed<SpecAtom> {
    if p < s.len() && is_digit(s[p]) {
        let e = digits_end(s, p + 1);
        SpecParsed::Done(SpecAtom::Number(canon_of(digits_val(s.subrange(p, e)))), e)
    } else if p + 1 < s.len() && s[p] == '-' && is_digit(s[p + 1]) {
        let e = digits_end(s, p + 2);
        SpecParsed::Done(SpecAtom::Number(canon_of(-digits_val(s.subrange(p + 1, e)))), e)
    } else {
        SpecParsed::Soft(SpecParseError { pos: p, expected: "number"@ })
    }
}

/// A double literal: an optionally signed digit run, a dot, a digit run;
/// kept as the text written.
pub open spec fn spec_float(s: Seq<char>, p: int) -> SpecParsed<SpecAtom> {
    let q = if p < s.len() && s[p] == '-' {
        p + 1
    } else {
        p
    };
    if q < s.len() && is_digit(s[q]) {
        let d = digits_end(s, q + 1);
        if d < s.len() && s[d] == '.' && d + 1 < s.len() && is_digit(s[d + 1]) {
            let e = digits_end(s, d + 2);
            SpecParsed::Done(SpecAtom::Float(s.subrange(p, e)), e)
        } else {
            SpecParsed::Soft(SpecParseError { pos: p, expected: "float"@ })
        }
    } else {
        SpecParsed::Soft(SpecParseError { pos: p, expected: "float"@ })
    }
}

/// A string literal: anything up to the next double quote; no closing quote
/// is a failure past the cut.
pub open spec fn spec_string(s: Seq<char>, p: int) -> SpecParsed<SpecAtom> {
    if p < s.len() && s[p] == '"' {
        let e = quote_end(s, p + 1);
        if e >= s.len() {
            SpecParsed::Hard(SpecParseError { pos: p + 1, expected: "string"@ })
        } else {
            SpecParsed::Done(SpecAtom::String(s.subrange(p + 1, e)), e + 1)
        }
    } else {
        SpecParsed::Soft(SpecParseError { pos: p, expected: "string"@ })
    }
}

/// A character literal: a quote, any one character, a quote; an input that
/// ends right after the opening quote is a failure past the cut.
pub open spec fn spec_char(s: Seq<char>, p: int) -> SpecParsed<SpecAtom> {
    if p < s.len() && s[p] == '\'' {
        if p + 1 >= s.len() {
            SpecParsed::Hard(SpecParseError { pos: p + 1, expected: "char"@ })
        } else if p + 2 < s.len() && s[p + 2] == '\'' {
            SpecParsed::Done(SpecAtom::Char(s[p + 1]), p + 3)
        } else {
            SpecParsed::Soft(SpecParseError { pos: p + 2, expected: "char"@ })
        }
    } else {
        SpecParsed::Soft(SpecParseError { pos: p, expected: "char"@ })
    }
}

/// A constant; the alternatives are tried in a fixed order: string, char,
/// float, number, operator, keyword, symbol.
pub open spec fn spec_atom(s: Seq<char>, p: int) -> SpecParsed<SpecAtom> {
    match spec_string(s, p) {
        SpecParsed::Soft(_) => match spec_char(s, p) {
            SpecParsed::Soft(_) => match spec_float(s, p) {
                SpecParsed::Soft(_) => match spec_number(s, p) {
                    SpecParsed::Soft(_) => match spec_builtin(s, p) {
                        SpecParsed::Soft(_) => match spec_keyword(s, p) {
                            SpecParsed::Soft(_) => match spec_symbol(s, p) {
                                SpecParsed::Soft(_) => SpecParsed::Soft(
                                    SpecParseError { pos: p, expected: "constant"@ },
                                ),
                                r => r,
                            },
                            r => r,
                        },
                        r => r,
                    },
                    r => r,
                },
                r => r,
            },
            r => r,
        },
        r => r,
    }
}

/// The word `nil`.
pub open spec fn spec_nil(s: Seq<char>, p: int) -> SpecParsed<SpecExpr> {
    if p >= 0 && p + 3 <= s.len() && s[p] == 'n' && s[p + 1] == 'i' && s[p + 2] == 'l' {
        SpecParsed::Done(SpecExpr::Nil, p + 3)
    } else {
        SpecParsed::Soft(SpecParseError { pos: p, expected: "nil"@ })
    }
}

/// Clamp a whitespace scan into the range the recursion needs.
pub open spec fn wsg(s: Seq<char>, p: int) -> int {
    let q = ws_end(s, p);
    if p <= q <= s.len() {
        q
    } else {
        p
    }
}

/// A cut point: a recoverable failure behind it becomes a hard one.
pub open spec fn cutify<T>(r: SpecParsed<T>) -> SpecParsed<T> {
    match r {
        SpecParsed::Soft(e) => SpecParsed::Hard(e),
        x => x,
    }
}

/// The closing parenthesis of a form, behind a cut.
pub open spec fn spec_close<T>(s: Seq<char>, p: int, v: T) -> SpecParsed<T> {
    let q = wsg(s, p);
    if q < s.len() && s[q] == ')' {
        SpecParsed::Done(v, q + 1)
    } else {
        SpecParsed::Hard(SpecParseError { pos: q, expected: ")"@ })
    }
}

/// The guard every recursion carries: a sub-parse that did not move forward
/// inside the input stops the walk. Every successful sub-parse does move
/// forward, so the stop is never taken; it keeps the recursion well founded.
pub open spec fn moved(s: Seq<char>, p: int, p2: int) -> bool {
    p < p2 <= s.len()
}

/// A quoted form: one quoted expression, or a quoted list.
pub open spec fn spec_quote(s: Seq<char>, p: int) -> SpecParsed<SpecExpr>
    decreases s.len() - p, 0int,
{
    if 0 <= p < s.len() && s[p] == '\'' {
        if p + 1 < s.len() && s[p + 1] == '(' {
            let q = wsg(s, p + 2);
            match spec_exprs(s, q) {
                SpecParsed::Done(items, p2) => if moved(s, p, p2) {
                    spec_close(s, p2, SpecExpr::Quote(items))
                } else {
                    spec_close(s, q, SpecExpr::Quote(items))
                },
                SpecParsed::Soft(e) => SpecParsed::Soft(e),
                SpecParsed::Hard(e) => SpecParsed::Hard(e),
            }
        } else {
            match spec_expr(s, p + 1) {
                SpecParsed::Done(e, p2) => SpecParsed::Done(
                    SpecExpr::Quote(seq![e]),
                    p2,
                ),
                SpecParsed::Soft(e) => SpecParsed::Soft(e),
                SpecParsed::Hard(e) => SpecParsed::Hard(e),
            }
        }
    } else {
        SpecParsed::Soft(SpecParseError { pos: p, expected: "quote"@ })
    }
}

/// An `if` form; everything after the word `if` sits behind a cut.
pub open spec fn spec_if(s: Seq<char>, p: int) -> SpecParsed<SpecExpr>
    decreases s.len() - p, 0int,
{
    if 0 <= p < s.len() && s[p] == '(' {
        let q = wsg(s, p + 1);
        if q + 1 < s.len() && s[q] == 'i' && s[q + 1] == 'f' {
            let q2 = wsg(s, q + 2);
            match cutify(spec_expr(s, q2)) {
                SpecParsed::Done(pred, p2) => if moved(s, p, p2) {
                    match cutify(spec_expr(s, p2)) {
                        SpecParsed::Done(th, p3) => if moved(s, p2, p3) {
                            match spec_expr(s, p3) {
                                SpecParsed::Done(o, p4) => if moved(s, p3, p4) {
                                    spec_close(
                                        s,
                                        p4,
                                        SpecExpr::If(
                                            Box::new(pred),
                                            Box::new(th),
                                            Some(Box::new(o)),
                                        ),
                                    )
                                } else {
                                    spec_close(
                                        s,
                                        p3,
                                        SpecExpr::If(Box::new(pred), Box::new(th), None),
                                    )
                                },
                                SpecParsed::Soft(_) => spec_close(
                                    s,
                                    p3,
                                    SpecExpr::If(Box::new(pred), Box::new(th), None),
                                ),
                                SpecParsed::Hard(e) => SpecParsed::Hard(e),
                            }
                        } else {
                            SpecParsed::Hard(SpecParseError { pos: p3, expected: "expression"@ })
                        },
                        SpecParsed::Soft(e) => SpecParsed::Soft(e),
                        SpecParsed::Hard(e) => SpecParsed::Hard(e),
                    }
                } else {
                    SpecParsed::Hard(SpecParseError { pos: p2, expected: "expression"@ })
                },
                SpecParsed::Soft(e) => SpecParsed::Soft(e),
                SpecParsed::Hard(e) => SpecParsed::Hard(e),
            }
        } else {
            SpecParsed::Soft(SpecParseError { pos: q, expected: "if"@ })
        }
    } else {
        SpecParsed::Soft(SpecParseError { pos: p, expected: "if"@ })
    }
}

/// A `let` form: the word `let`, then one or more bindings; no cut, so a
/// malformed `let` may still read as a call.
pub open spec fn spec_let(s: Seq<char>, p: int) -> SpecParsed<SpecExpr>
    decreases s.len() - p, 0int,
{
    if 0 <= p < s.len() && s[p] == '(' {
        let q = wsg(s, p + 1);
        if q + 2 < s.len() && s[q] == 'l' && s[q + 1] == 'e' && s[q + 2] == 't' {
            let q2 = q + 3;
            match spec_bindings(s, q2) {
                SpecParsed::Done(bs, p2) => if moved(s, p, p2) {
                    spec_close(s, p2, SpecExpr::Let(bs))
                } else {
                    spec_close(s, q2, SpecExpr::Let(bs))
                },
                SpecParsed::Soft(e) => SpecParsed::Soft(e),
                SpecParsed::Hard(e) => SpecParsed::Hard(e),
            }
        } else {
            SpecParsed::Soft(SpecParseError { pos: q, expected: "let"@ })
        }
    } else {
        SpecParsed::Soft(SpecParseError { pos: p, expected: "let"@ })
    }
}

/// One binding: a name and a value, or the function sugar
/// `(name params...) body`.
pub open spec fn spec_binding(s: Seq<char>, p: int) -> SpecParsed<(SpecAtom, SpecExpr)>
    decreases s.len() - p, 1int,
{
    match spec_lambda_binding(s, p) {
        SpecParsed::Soft(_) => spec_regular_binding(s, p),
        r => r,
    }
}

/// The function sugar binding: `(name param...) body`, one parameter or
/// more.
pub open spec fn spec_lambda_binding(s: Seq<char>, p: int) -> SpecParsed<(SpecAtom, SpecExpr)>
    decreases s.len() - p, 0int,
{
    if 0 <= p < s.len() && s[p] == '(' {
        let q = wsg(s, p + 1);
        match spec_symbol(s, q) {
            SpecParsed::Done(name, p2) => if moved(s, p, p2) {
                match spec_params(s, p2) {
                    SpecParsed::Done(params, p3) => if params.len() == 0 {
                        SpecParsed::Soft(SpecParseError { pos: p3, expected: "symbol"@ })
                    } else {
                        match spec_close(s, p3, params) {
                            SpecParsed::Done(params2, p4) => if moved(s, p, p4) {
                                match spec_expr(s, p4) {
                                    SpecParsed::Done(body, p5) => SpecParsed::Done(
                                        (
                                            name,
                                            SpecExpr::Function(params2, Box::new(body)),
                                        ),
                                        p5,
                                    ),
                                    SpecParsed::Soft(e) => SpecParsed::Soft(e),
                                    SpecParsed::Hard(e) => SpecParsed::Hard(e),
                                }
                            } else {
                                SpecParsed::Hard(
                                    SpecParseError { pos: p4, expected: "expression"@ },
                                )
                            },
                            SpecParsed::Soft(e) => SpecParsed::Soft(e),
                            SpecParsed::Hard(e) => SpecParsed::Hard(e),
                        }
                    },
                    SpecParsed::Soft(e) => SpecParsed::Soft(e),
                    SpecParsed::Hard(e) => SpecParsed::Hard(e),
                }
            } else {
                SpecParsed::Soft(SpecParseError { pos: p2, expected: "symbol"@ })
            },
            SpecParsed::Soft(e) => SpecParsed::Soft(e),
            SpecParsed::Hard(e) => SpecParsed::Hard(e),
        }
    } else {
        SpecParsed::Soft(SpecParseError { pos: p, expected: "binding"@ })
    }
}

/// A plain binding: a symbol and an expression.
pub open spec fn spec_regular_binding(s: Seq<char>, p: int) -> SpecParsed<(SpecAtom, SpecExpr)>
    decreases s.len() - p, 0int,
{
    match spec_symbol(s, p) {
        SpecParsed::Done(name, p2) => if moved(s, p, p2) {
            match spec_expr(s, p2) {
                SpecParsed::Done(v, p3) => SpecParsed::Done((name, v), p3),
                SpecParsed::Soft(e) => SpecParsed::Soft(e),
                SpecParsed::Hard(e) => SpecParsed::Hard(e),
            }
        } else {
            SpecParsed::Soft(SpecParseError { pos: p2, expected: "expression"@ })
        },
        SpecParsed::Soft(e) => SpecParsed::Soft(e),
        SpecParsed::Hard(e) => SpecParsed::Hard(e),
    }
}

/// One or more bindings, each behind leading whitespace.
pub open spec fn spec_bindings(s: Seq<char>, p: int) -> SpecParsed<Seq<(SpecAtom, SpecExpr)>>
    decreases s.len() - p, 2int,
{
    let q = wsg(s, p);
    match spec_binding(s, q) {
        SpecParsed::Soft(e) => SpecParsed::Soft(e),
        SpecParsed::Hard(e) => SpecParsed::Hard(e),
        SpecParsed::Done(b, p2) => {
            let p3 = wsg(s, p2);
            if moved(s, q, p3) {
                match spec_more_bindings(s, p3) {
                    SpecParsed::Done(rest, p4) => SpecParsed::Done(seq![b] + rest, p4),
                    SpecParsed::Soft(e) => SpecParsed::Soft(e),
                    SpecParsed::Hard(e) => SpecParsed::Hard(e),
                }
            } else {
                SpecParsed::Done(seq![b], p3)
            }
        },
    }
}

/// Zero or more further bindings.
pub open spec fn spec_more_bindings(s: Seq<char>, p: int) -> SpecParsed<Seq<(SpecAtom, SpecExpr)>>
    decreases s.len() - p, 2int,
{
    match spec_binding(s, p) {
        SpecParsed::Soft(_) => SpecParsed::Done(Seq::empty(), p),
        SpecParsed::Hard(e) => SpecParsed::Hard(e),
        SpecParsed::Done(b, p2) => {
            let p3 = wsg(s, p2);
            if moved(s, p, p3) {
                match spec_more_bindings(s, p3) {
                    SpecParsed::Done(rest, p4) => SpecParsed::Done(seq![b] + rest, p4),
                    SpecParsed::Soft(e) => SpecParsed::Soft(e),
                    SpecParsed::Hard(e) => SpecParsed::Hard(e),
                }
            } else {
                SpecParsed::Done(seq![b], p3)
            }
        },
    }
}

/// Zero or more parameter symbols, each wrapped in whitespace, as constants.
pub open spec fn spec_params(s: Seq<char>, p: int) -> SpecParsed<Seq<SpecExpr>>
    decreases s.len() - p, 2int,
{
    let q = wsg(s, p);
    match spec_symbol(s, q) {
        SpecParsed::Soft(_) => SpecParsed::Done(Seq::empty(), p),
        SpecParsed::Hard(e) => SpecParsed::Hard(e),
        SpecParsed::Done(a, p2) => {
            let p3 = wsg(s, p2);
            if moved(s, p, p3) {
                match spec_params(s, p3) {
                    SpecParsed::Done(rest, p4) => SpecParsed::Done(
                        seq![SpecExpr::Constant(a)] + rest,
                        p4,
                    ),
                    SpecParsed::Soft(e) => SpecParsed::Soft(e),
                    SpecParsed::Hard(e) => SpecParsed::Hard(e),
                }
            } else {
                SpecParsed::Done(seq![SpecExpr::Constant(a)], p3)
            }
        },
    }
}

/// A `fn` form; everything after the word `fn` sits behind a cut.
pub open spec fn spec_fn_form(s: Seq<char>, p: int) -> SpecParsed<SpecExpr>
    decreases s.len() - p, 0int,
{
    if 0 <= p < s.len() && s[p] == '(' {
        let q = wsg(s, p + 1);
        if q + 1 < s.len() && s[q] == 'f' && s[q + 1] == 'n' {
            let q2 = wsg(s, q + 2);
            if q2 < s.len() && s[q2] == '(' {
                let q3 = wsg(s, q2 + 1);
                match spec_params(s, q3) {
                    SpecParsed::Done(params, p2) => if moved(s, p, p2) {
                        match spec_close(s, p2, params) {
                            SpecParsed::Done(params2, p3) => if moved(s, p, p3) {
                                match cutify(spec_expr(s, p3)) {
                                    SpecParsed::Done(body, p4) => spec_close(
                                        s,
                                        p4,
                                        SpecExpr::Function(params2, Box::new(body)),
                                    ),
                                    SpecParsed::Soft(e) => SpecParsed::Soft(e),
                                    SpecParsed::Hard(e) => SpecParsed::Hard(e),
                                }
                            } else {
                                SpecParsed::Hard(
                                    SpecParseError { pos: p3, expected: "expression"@ },
                                )
                            },
                            SpecParsed::Soft(e) => SpecParsed::Soft(e),
                            SpecParsed::Hard(e) => SpecParsed::Hard(e),
                        }
                    } else {
                        match spec_close(s, q3, params) {
                            SpecParsed::Done(params2, p3) => if moved(s, p, p3) {
                                match cutify(spec_expr(s, p3)) {
                                    SpecParsed::Done(body, p4) => spec_close(
                                        s,
                                        p4,
                                        SpecExpr::Function(params2, Box::new(body)),
                                    ),
                                    SpecParsed::Soft(e) => SpecParsed::Soft(e),
                                    SpecParsed::Hard(e) => SpecParsed::Hard(e),
                                }
                            } else {
                                SpecParsed::Hard(
                                    SpecParseError { pos: p3, expected: "expression"@ },
                                )
                            },
                            SpecParsed::Soft(e) => SpecParsed::Soft(e),
                            SpecParsed::Hard(e) => SpecParsed::Hard(e),
                        }
                    },
                    SpecParsed::Soft(e) => SpecParsed::Soft(e),
                    SpecParsed::Hard(e) => SpecParsed::Hard(e),
                }
            } else {
                SpecParsed::Hard(SpecParseError { pos: q2, expected: "("@ })
            }
        } else {
            SpecParsed::Soft(SpecParseError { pos: q, expected: "fn"@ })
        }
    } else {
        SpecParsed::Soft(SpecParseError { pos: p, expected: "fn"@ })
    }
}

/// A call: a head expression and its arguments.
pub open spec fn spec_call(s: Seq<char>, p: int) -> SpecParsed<SpecExpr>
    decreases s.len() - p, 0int,
{
    if 0 <= p < s.len() && s[p] == '(' {
        let q = wsg(s, p + 1);
        match spec_expr(s, q) {
            SpecParsed::Done(h, p2) => if moved(s, p, p2) {
                match spec_exprs(s, p2) {
                    SpecParsed::Done(args, p3) => spec_close(
                        s,
                        p3,
                        SpecExpr::Call(Box::new(h), args),
                    ),
                    SpecParsed::Soft(e) => SpecParsed::Soft(e),
                    SpecParsed::Hard(e) => SpecParsed::Hard(e),
                }
            } else {
                SpecParsed::Hard(SpecParseError { pos: p2, expected: "expression"@ })
            },
            SpecParsed::Soft(e) => SpecParsed::Soft(e),
            SpecParsed::Hard(e) => SpecParsed::Hard(e),
        }
    } else {
        SpecParsed::Soft(SpecParseError { pos: p, expected: "call"@ })
    }
}

/// One expression; the alternatives are tried in a fixed order: quote,
/// `nil`, constant, `if`, `let`, `fn`, call; whitespace on both sides.
pub open spec fn spec_expr(s: Seq<char>, p: int) -> SpecParsed<SpecExpr>
    decreases s.len() - p, 3int,
{
    let q = wsg(s, p);
    let r = match spec_quote(s, q) {
        SpecParsed::Soft(_) => match spec_nil(s, q) {
            SpecParsed::Soft(_) => match spec_atom(s, q) {
                SpecParsed::Done(a, p2) => SpecParsed::Done(SpecExpr::Constant(a), p2),
                SpecParsed::Soft(_) => match spec_if(s, q) {
                    SpecParsed::Soft(_) => match spec_let(s, q) {
                        SpecParsed::Soft(_) => match spec_fn_form(s, q) {
                            SpecParsed::Soft(_) => match spec_call(s, q) {
                                SpecParsed::Soft(_) => SpecParsed::Soft(
                                    SpecParseError { pos: q, expected: "expression"@ },
                                ),
                                r => r,
                            },
                            r => r,
                        },
                        r => r,
                    },
                    r => r,
                },
                SpecParsed::Hard(e) => SpecParsed::Hard(e),
            },
            r => r,
        },
        r => r,
    };
    match r {
        SpecParsed::Done(e, p2) => SpecParsed::Done(e, wsg(s, p2)),
        other => other,
    }
}

/// Zero or more expressions.
pub open spec fn spec_exprs(s: Seq<char>, p: int) -> SpecParsed<Seq<SpecExpr>>
    decreases s.len() - p, 4int,
{
    match spec_expr(s, p) {
        SpecParsed::Soft(_) => SpecParsed::Done(Seq::empty(), p),
        SpecParsed::Hard(e) => SpecParsed::Hard(e),
        SpecParsed::Done(e, p2) => if moved(s, p, p2) {
            match spec_exprs(s, p2) {
                SpecParsed::Done(rest, p3) => SpecParsed::Done(seq![e] + rest, p3),
                SpecParsed::Soft(err) => SpecParsed::Soft(err),
                SpecParsed::Hard(err) => SpecParsed::Hard(err),
            }
        } else {
            SpecParsed::Done(seq![e], p2)
        },
    }
}

/// A whole program: one or more expressions, and nothing left over.
pub open spec fn spec_program(s: Seq<char>) -> Result<Seq<SpecExpr>, SpecParseError> {
    match spec_expr(s, 0) {
        SpecParsed::Soft(e) => Err(e),
        SpecParsed::Hard(e) => Err(e),
        SpecParsed::Done(e1, p1) => if moved(s, 0, p1) {
            match spec_exprs(s, p1) {
                SpecParsed::Done(rest, p2) => if p2 == s.len() {
                    Ok(seq![e1] + rest)
                } else {
                    Err(SpecParseError { pos: p2, expected: "end of input"@ })
                },
                SpecParsed::Soft(e) => Err(e),
                SpecParsed::Hard(e) => Err(e),
            }
        } else {
            Err(SpecParseError { pos: p1, expected: "end of input"@ })
        },
    }
}

/// What one run-time parse attempt yields.
#[derive(Debug)]
pub enum Parsed<T> {
    Done(T, usize),
    Soft(ParseError),
    Hard(ParseError),
}

/// Decide whether a character is a decimal digit.
fn ch_digit(c: char) -> (r: bool)
    ensures
        r == is_digit(c),
{
    let u = c as u32;
    u >= 48 && u <= 57
}

/// Decide whether a character is an ASCII letter.
fn ch_alpha(c: char) -> (r: bool)
    ensures
        r == is_alpha(c),
{
    let u = c as u32;
    (u >= 97 && u <= 122) || (u >= 65 && u <= 90)
}

/// Decide whether a character may continue a symbol.
fn ch_sym(c: char) -> (r: bool)
    ensures
        r == is_symch(c),
{
    ch_alpha(c) || ch_digit(c) || c == '_' || c == '-' || c == '>' || c == '<' || c == '?'
}

/// Scan past whitespace.
#[verifier::loop_isolation(false)]
fn ws_scan(v: &Vec<char>, p: usize) -> (r: usize)
    requires
        p <= v@.len(),
    ensures
        r == ws_end(v@, p as int),
        p <= r <= v@.len(),
{
    let mut i = p;
    while i < v.len() && (v[i] == ' ' || v[i] == '\t' || v[i] == '\r' || v[i] == '\n')
        invariant
            p <= i <= v@.len(),
            ws_end(v@, p as int) == ws_end(v@, i as int),
        decreases v@.len() - i,
    {
        i = i + 1;
    }
    i
}

/// Scan past digits.
#[verifier::loop_isolation(false)]
fn digits_scan(v: &Vec<char>, p: usize) -> (r: usize)
    requires
        p <= v@.len(),
    ensures
        r == digits_end(v@, p as int),
        p <= r <= v@.len(),
{
    let mut i = p;
    while i < v.len() && ch_digit(v[i])
        invariant
            p <= i <= v@.len(),
            digits_end(v@, p as int) == digits_end(v@, i as int),
        decreases v@.len() - i,
    {
        i = i + 1;
    }
    i
}

/// Scan past letters.
#[verifier::loop_isolation(false)]
fn alpha_scan(v: &Vec<char>, p: usize) -> (r: usize)
    requires
        p <= v@.len(),
    ensures
        r == alpha_end(v@, p as int),
        p <= r <= v@.len(),
{
    let mut i = p;
    while i < v.len() && ch_alpha(v[i])
        invariant
            p <= i <= v@.len(),
            alpha_end(v@, p as int) == alpha_end(v@, i as int),
        decreases v@.len() - i,
    {
        i = i + 1;
    }
    i
}

/// Scan past characters that may continue a symbol.
#[verifier::loop_isolation(false)]
fn sym_scan(v: &Vec<char>, p: usize) -> (r: usize)
    requires
        p <= v@.len(),
    ensures
        r == sym_end(v@, p as int),
        p <= r <= v@.len(),
{
    let mut i = p;
    while i < v.len() && ch_sym(v[i])
        invariant
            p <= i <= v@.len(),
            sym_end(v@, p as int) == sym_end(v@, i as int),
        decreases v@.len() - i,
    {
        i = i + 1;
    }
    i
}

/// Scan for the next double quote.
#[verifier::loop_isolation(false)]
fn quote_scan(v: &Vec<char>, p: usize) -> (r: usize)
    requires
        p <= v@.len(),
    ensures
        r == quote_end(v@, p as int),
        p <= r <= v@.len(),
{
    let mut i = p;
    while i < v.len() && v[i] != '"'
        invariant
            p <= i <= v@.len(),
            quote_end(v@, p as int) == quote_end(v@, i as int),
        decreases v@.len() - i,
    {
        i = i + 1;
    }
    i
}

/// The text between two positions.
#[verifier::loop_isolation(false)]
fn text_range(v: &Vec<char>, a: usize, b: usize) -> (r: String)
    requires
        a <= b <= v@.len(),
    ensures
        r@ == v@.subrange(a as int, b as int),
{
    let mut out: Vec<char> = Vec::new();
    for i in a..b
        invariant
            out@.len() == i - a,
            out@ =~= v@.subrange(a as int, i as int),
        decreases b - i,
    {
        out.push(v[i]);
        proof {
            assert(out@ =~= v@.subrange(a as int, i as int + 1));
        }
    }
    crate::text::string_of(&out)
}

/// Read an operator token.
fn read_builtin(v: &Vec<char>, p: usize) -> (r: Parsed<Atom>)
    requires
        p <= v@.len(),
    ensures
        ({
            let sr = spec_builtin(v@, p as int);
            match r {
                Parsed::Done(a, p2) => sr == SpecParsed::Done(a@, p2 as int) && p2 <= v@.len(),
                Parsed::Soft(e) => sr == SpecParsed::Soft::<SpecAtom>(e@),
                Parsed::Hard(e) => sr == SpecParsed::Hard::<SpecAtom>(e@),
            }
        }),
{
    let n = v.len();
    if p < n && v[p] == '+' {
        Parsed::Done(Atom::BuiltIn(BuiltIn::Plus), p + 1)
    } else if p < n && v[p] == '-' {
        Parsed::Done(Atom::BuiltIn(BuiltIn::Minus), p + 1)
    } else if p < n && v[p] == '*' {
        Parsed::Done(Atom::BuiltIn(BuiltIn::Times), p + 1)
    } else if p < n && v[p] == '/' {
        Parsed::Done(Atom::BuiltIn(BuiltIn::Divide), p + 1)
    } else if p < n && v[p] == '=' {
        Parsed::Done(Atom::BuiltIn(BuiltIn::Equal), p + 1)
    } else if p < n && p + 1 < n && v[p] == '!' && v[p + 1] == '=' {
        Parsed::Done(Atom::BuiltIn(BuiltIn::NotEqual), p + 2)
    } else if p < n && p + 1 < n && v[p] == '>' && v[p + 1] == '=' {
        Parsed::Done(Atom::BuiltIn(BuiltIn::GreaterEqual), p + 2)
    } else if p < n && p + 1 < n && v[p] == '<' && v[p + 1] == '=' {
        Parsed::Done(Atom::BuiltIn(BuiltIn::LessEqual), p + 2)
    } else if p < n && v[p] == '>' {
        Parsed::Done(Atom::BuiltIn(BuiltIn::Greater), p + 1)
    } else if p < n && v[p] == '<' {
        Parsed::Done(Atom::BuiltIn(BuiltIn::Less), p + 1)
    } else if p < n && v[p] == '!' {
        Parsed::Done(Atom::BuiltIn(BuiltIn::Not), p + 1)
    } else if p < n && p + 1 < n && v[p] == '&' && v[p + 1] == '&' {
        Parsed::Done(Atom::BuiltIn(BuiltIn::And), p + 2)
    } else if p < n && p + 1 < n && v[p] == '|' && v[p + 1] == '|' {
        Parsed::Done(Atom::BuiltIn(BuiltIn::Or), p + 2)
    } else {
        Parsed::Soft(ParseError { pos: p, expected: String::from_str("operator") })
    }
}

/// Read a keyword.
fn read_keyword(v: &Vec<char>, p: usize) -> (r: Parsed<Atom>)
    requires
        p <= v@.len(),
    ensures
        ({
            let sr = spec_keyword(v@, p as int);
            match r {
                Parsed::Done(a, p2) => sr == SpecParsed::Done(a@, p2 as int) && p2 <= v@.len(),
                Parsed::Soft(e) => sr == SpecParsed::Soft::<SpecAtom>(e@),
                Parsed::Hard(e) => sr == SpecParsed::Hard::<SpecAtom>(e@),
            }
        }),
{
    if p < v.len() && v[p] == ':' {
        let e = alpha_scan(v, p + 1);
        if e == p + 1 {
            Parsed::Hard(ParseError { pos: p + 1, expected: String::from_str("keyword") })
        } else {
            Parsed::Done(Atom::Keyword(text_range(v, p + 1, e)), e)
        }
    } else {
        Parsed::Soft(ParseError { pos: p, expected: String::from_str("keyword") })
    }
}

/// Read a symbol.
fn read_symbol(v: &Vec<char>, p: usize) -> (r: Parsed<Atom>)
    requires
        p <= v@.len(),
    ensures
        ({
            let sr = spec_symbol(v@, p as int);
            match r {
                Parsed::Done(a, p2) => sr == SpecParsed::Done(a@, p2 as int) && p2 <= v@.len(),
                Parsed::Soft(e) => sr == SpecParsed::Soft::<SpecAtom>(e@),
                Parsed::Hard(e) => sr == SpecParsed::Hard::<SpecAtom>(e@),
            }
        }),
{
    let alpha = p < v.len() && ch_alpha(v[p]);
    if alpha {
        let e = sym_scan(v, p + 1);
        Parsed::Done(Atom::Symbol(text_range(v, p, e)), e)
    } else {
        Parsed::Soft(ParseError { pos: p, expected: String::from_str("symbol") })
    }
}

/// Read an integer.
fn read_number(v: &Vec<char>, p: usize) -> (r: Parsed<Atom>)
    requires
        p <= v@.len(),
    ensures
        ({
            let sr = spec_number(v@, p as int);
            match r {
                Parsed::Done(a, p2) => sr == SpecParsed::Done(a@, p2 as int) && p2 <= v@.len(),
                Parsed::Soft(e) => sr == SpecParsed::Soft::<SpecAtom>(e@),
                Parsed::Hard(e) => sr == SpecParsed::Hard::<SpecAtom>(e@),
            }
        }),
{
    let digit = p < v.len() && ch_digit(v[p]);
    if digit {
        let e = digits_scan(v, p + 1);
        proof {
            let sub = v@.subrange(p as int, e as int);
            assert forall|j: int| 0 <= j < sub.len() implies is_digit(#[trigger] sub[j]) by {
                assert(sub[j] == v@[p + j]);
                if j > 0 {
                    lemma_digits_upto(v@, p as int + 1, e as int, p + j);
                }
            }
        }
        let text = crate::bignum::make_number(v, p, e, false);
        proof {
            crate::bignum::lemma_canonical_unique(text@);
        }
        Parsed::Done(Atom::Number(text), e)
    } else {
        let neg_digit = p < v.len() && p + 1 < v.len() && v[p] == '-' && ch_digit(v[p + 1]);
        if neg_digit {
            let e = digits_scan(v, p + 2);
            proof {
                let sub = v@.subrange(p as int + 1, e as int);
                assert forall|j: int| 0 <= j < sub.len() implies is_digit(#[trigger] sub[j]) by {
                    assert(sub[j] == v@[p + 1 + j]);
                    if j > 0 {
                        lemma_digits_upto(v@, p as int + 2, e as int, p + 1 + j);
                    }
                }
            }
            let text = crate::bignum::make_number(v, p + 1, e, true);
            proof {
                crate::bignum::lemma_canonical_unique(text@);
            }
            Parsed::Done(Atom::Number(text), e)
        } else {
            Parsed::Soft(ParseError { pos: p, expected: String::from_str("number") })
        }
    }
}

/// Every position before a digit scan's end holds a digit.
pub(crate) proof fn lemma_digits_upto(s: Seq<char>, a: int, e: int, j: int)
    requires
        0 <= a <= j < e <= s.len(),
        e == digits_end(s, a),
    ensures
        is_digit(s[j]),
    decreases j - a,
{
    if j == a {
        assert(digits_end(s, a) > a);
    } else {
        assert(is_digit(s[a]));
        lemma_digits_upto(s, a + 1, e, j);
    }
}

/// Read a double literal, kept as its text.
fn read_float(v: &Vec<char>, p: usize) -> (r: Parsed<Atom>)
    requires
        p <= v@.len(),
    ensures
        ({
            let sr = spec_float(v@, p as int);
            match r {
                Parsed::Done(a, p2) => sr == SpecParsed::Done(a@, p2 as int) && p2 <= v@.len(),
                Parsed::Soft(e) => sr == SpecParsed::Soft::<SpecAtom>(e@),
                Parsed::Hard(e) => sr == SpecParsed::Hard::<SpecAtom>(e@),
            }
        }),
{
    let q = if p < v.len() && v[p] == '-' {
        p + 1
    } else {
        p
    };
    let digit = q < v.len() && ch_digit(v[q]);
    if digit {
        let d = digits_scan(v, q + 1);
        let dot_digit = d < v.len() && v[d] == '.' && d + 1 < v.len() && ch_digit(v[d + 1]);
        if dot_digit {
            let e = digits_scan(v, d + 2);
            Parsed::Done(Atom::Float(text_range(v, p, e)), e)
        } else {
            Parsed::Soft(ParseError { pos: p, expected: String::from_str("float") })
        }
    } else {
        Parsed::Soft(ParseError { pos: p, expected: String::from_str("float") })
    }
}

/// Read a string literal.
fn read_string(v: &Vec<char>, p: usize) -> (r: Parsed<Atom>)
    requires
        p <= v@.len(),
    ensures
        ({
            let sr = spec_string(v@, p as int);
            match r {
                Parsed::Done(a, p2) => sr == SpecParsed::Done(a@, p2 as int) && p2 <= v@.len(),
                Parsed::Soft(e) => sr == SpecParsed::Soft::<SpecAtom>(e@),
                Parsed::Hard(e) => sr == SpecParsed::Hard::<SpecAtom>(e@),
            }
        }),
{
    if p < v.len() && v[p] == '"' {
        let e = quote_scan(v, p + 1);
        if e >= v.len() {
            Parsed::Hard(ParseError { pos: p + 1, expected: String::from_str("string") })
        } else {
            Parsed::Done(Atom::String(text_range(v, p + 1, e)), e + 1)
        }
    } else {
        Parsed::Soft(ParseError { pos: p, expected: String::from_str("string") })
    }
}

/// Read a character literal.
fn read_char(v: &Vec<char>, p: usize) -> (r: Parsed<Atom>)
    requires
        p <= v@.len(),
    ensures
        ({
            let sr = spec_char(v@, p as int);
            match r {
                Parsed::Done(a, p2) => sr == SpecParsed::Done(a@, p2 as int) && p2 <= v@.len(),
                Parsed::Soft(e) => sr == SpecParsed::Soft::<SpecAtom>(e@),
                Parsed::Hard(e) => sr == SpecParsed::Hard::<SpecAtom>(e@),
            }
        }),
{
    if p < v.len() && v[p] == '\'' {
        if p + 1 >= v.len() {
            Parsed::Hard(ParseError { pos: p + 1, expected: String::from_str("char") })
        } else if p + 2 < v.len() && v[p + 2] == '\'' {
            Parsed::Done(Atom::Char(v[p + 1]), p + 3)
        } else {
            Parsed::Soft(ParseError { pos: p + 2, expected: String::from_str("char") })
        }
    } else {
        Parsed::Soft(ParseError { pos: p, expected: String::from_str("char") })
    }
}

/// Read a constant, trying the alternatives in their fixed order.
fn read_atom(v: &Vec<char>, p: usize) -> (r: Parsed<Atom>)
    requires
        p <= v@.len(),
    ensures
        ({
            let sr = spec_atom(v@, p as int);
            match r {
                Parsed::Done(a, p2) => sr == SpecParsed::Done(a@, p2 as int) && p2 <= v@.len(),
                Parsed::Soft(e) => sr == SpecParsed::Soft::<SpecAtom>(e@),
                Parsed::Hard(e) => sr == SpecParsed::Hard::<SpecAtom>(e@),
            }
        }),
{
    match read_string(v, p) {
        Parsed::Soft(_) => {},
        r => {
            return r;
        },
    }
    match read_char(v, p) {
        Parsed::Soft(_) => {},
        r => {
            return r;
        },
    }
    match read_float(v, p) {
        Parsed::Soft(_) => {},
        r => {
            return r;
        },
    }
    match read_number(v, p) {
        Parsed::Soft(_) => {},
        r => {
            return r;
        },
    }
    match read_builtin(v, p) {
        Parsed::Soft(_) => {},
        r => {
            return r;
        },
    }
    match read_keyword(v, p) {
        Parsed::Soft(_) => {},
        r => {
            return r;
        },
    }
    match read_symbol(v, p) {
        Parsed::Soft(_) => {},
        r => {
            return r;
        },
    }
    Parsed::Soft(ParseError { pos: p, expected: String::from_str("constant") })
}

/// Read the word `nil`.
fn read_nil(v: &Vec<char>, p: usize) -> (r: Parsed<Expr>)
    requires
        p <= v@.len(),
    ensures
        ({
            let sr = spec_nil(v@, p as int);
            match r {
                Parsed::Done(e, p2) => sr == SpecParsed::Done(e@, p2 as int) && p2 <= v@.len(),
                Parsed::Soft(e) => sr == SpecParsed::Soft::<SpecExpr>(e@),
                Parsed::Hard(e) => sr == SpecParsed::Hard::<SpecExpr>(e@),
            }
        }),
{
    if p < v.len() && v.len() - p >= 3 && v[p] == 'n' && v[p + 1] == 'i' && v[p + 2] == 'l' {
        Parsed::Done(Expr::Nil, p + 3)
    } else {
        Parsed::Soft(ParseError { pos: p, expected: String::from_str("nil") })
    }
}

/// Read the closing parenthesis of a form.
fn read_close(v: &Vec<char>, p: usize) -> (r: Result<usize, ParseError>)
    requires
        p <= v@.len(),
    ensures
        ({
            match r {
                Ok(p2) => wsg(v@, p as int) < v@.len() && v@[wsg(v@, p as int)] == ')' && p2 == wsg(
                    v@,
                    p as int,
                ) + 1 && p2 <= v@.len(),
                Err(e) => !(wsg(v@, p as int) < v@.len() && v@[wsg(v@, p as int)] == ')') && e@
                    == (SpecParseError { pos: wsg(v@, p as int), expected: ")"@ }),
            }
        }),
{
    let q = ws_scan(v, p);
    if q < v.len() && v[q] == ')' {
        Ok(q + 1)
    } else {
        Err(ParseError { pos: q, expected: String::from_str(")") })
    }
}

/// Read a quoted form.
fn read_quote(v: &Vec<char>, p: usize) -> (r: Parsed<Expr>)
    requires
        p <= v@.len(),
    ensures
        ({
            let sr = spec_quote(v@, p as int);
            match r {
                Parsed::Done(e, p2) => sr == SpecParsed::Done(e@, p2 as int) && p2 <= v@.len(),
                Parsed::Soft(e) => sr == SpecParsed::Soft::<SpecExpr>(e@),
                Parsed::Hard(e) => sr == SpecParsed::Hard::<SpecExpr>(e@),
            }
        }),
    decreases v@.len() - p, 0int,
{
    if p < v.len() && v[p] == '\'' {
        if p + 1 < v.len() && v[p + 1] == '(' {
            let q = ws_scan(v, p + 2);
            match read_exprs(v, q) {
                Parsed::Done(items, p2) => {
                    let at = if p < p2 && p2 <= v.len() {
                        p2
                    } else {
                        q
                    };
                    match read_close(v, at) {
                        Ok(p3) => Parsed::Done(Expr::Quote(items), p3),
                        Err(e) => Parsed::Hard(e),
                    }
                },
                Parsed::Soft(e) => Parsed::Soft(e),
                Parsed::Hard(e) => Parsed::Hard(e),
            }
        } else {
            match read_expr(v, p + 1) {
                Parsed::Done(e, p2) => {
                    let mut items: Vec<Expr> = Vec::new();
                    items.push(e);
                    proof {
                        view_exprs_len(items@);
                        assert(items@.drop_last() =~= Seq::<Expr>::empty());
                        assert(view_exprs(items@) =~= seq![view_expr(items@.last())]);
                    }
                    Parsed::Done(Expr::Quote(items), p2)
                },
                Parsed::Soft(e) => Parsed::Soft(e),
                Parsed::Hard(e) => Parsed::Hard(e),
            }
        }
    } else {
        Parsed::Soft(ParseError { pos: p, expected: String::from_str("quote") })
    }
}

/// Read an `if` form.
fn read_if(v: &Vec<char>, p: usize) -> (r: Parsed<Expr>)
    requires
        p <= v@.len(),
    ensures
        ({
            let sr = spec_if(v@, p as int);
            match r {
                Parsed::Done(e, p2) => sr == SpecParsed::Done(e@, p2 as int) && p2 <= v@.len(),
                Parsed::Soft(e) => sr == SpecParsed::Soft::<SpecExpr>(e@),
                Parsed::Hard(e) => sr == SpecParsed::Hard::<SpecExpr>(e@),
            }
        }),
    decreases v@.len() - p, 0int,
{
    if p < v.len() && v[p] == '(' {
        let q = ws_scan(v, p + 1);
        if q < v.len() && q + 1 < v.len() && v[q] == 'i' && v[q + 1] == 'f' {
            let q2 = ws_scan(v, q + 2);
            match read_expr(v, q2) {
                Parsed::Done(pred, p2) => {
                    if p < p2 && p2 <= v.len() {
                        match read_expr(v, p2) {
                            Parsed::Done(th, p3) => {
                                if p2 < p3 && p3 <= v.len() {
                                    match read_expr(v, p3) {
                                        Parsed::Done(o, p4) => {
                                            if p3 < p4 && p4 <= v.len() {
                                                match read_close(v, p4) {
                                                    Ok(p5) => Parsed::Done(
                                                        Expr::If(
                                                            Box::new(pred),
                                                            Box::new(th),
                                                            Some(Box::new(o)),
                                                        ),
                                                        p5,
                                                    ),
                                                    Err(e) => Parsed::Hard(e),
                                                }
                                            } else {
                                                match read_close(v, p3) {
                                                    Ok(p5) => Parsed::Done(
                                                        Expr::If(Box::new(pred), Box::new(th), None),
                                                        p5,
                                                    ),
                                                    Err(e) => Parsed::Hard(e),
                                                }
                                            }
                                        },
                                        Parsed::Soft(_) => {
                                            match read_close(v, p3) {
                                                Ok(p5) => Parsed::Done(
                                                    Expr::If(Box::new(pred), Box::new(th), None),
                                                    p5,
                                                ),
                                                Err(e) => Parsed::Hard(e),
                                            }
                                        },
                                        Parsed::Hard(e) => Parsed::Hard(e),
                                    }
                                } else {
                                    Parsed::Hard(
                                        ParseError {
                                            pos: p3,
                                            expected: String::from_str("expression"),
                                        },
                                    )
                                }
                            },
                            Parsed::Soft(e) => Parsed::Hard(e),
                            Parsed::Hard(e) => Parsed::Hard(e),
                        }
                    } else {
                        Parsed::Hard(
                            ParseError { pos: p2, expected: String::from_str("expression") },
                        )
                    }
                },
                Parsed::Soft(e) => Parsed::Hard(e),
                Parsed::Hard(e) => Parsed::Hard(e),
            }
        } else {
            Parsed::Soft(ParseError { pos: q, expected: String::from_str("if") })
        }
    } else {
        Parsed::Soft(ParseError { pos: p, expected: String::from_str("if") })
    }
}

/// Read zero or more parameter symbols as constants.
#[verifier::loop_isolation(false)]
fn read_params(v: &Vec<char>, p: usize) -> (r: Parsed<Vec<Expr>>)
    requires
        p <= v@.len(),
    ensures
        ({
            let sr = spec_params(v@, p as int);
            match r {
                Parsed::Done(es, p2) => sr == SpecParsed::Done(view_exprs(es@), p2 as int) && p2
                    <= v@.len(),
                Parsed::Soft(e) => sr == SpecParsed::Soft::<Seq<SpecExpr>>(e@),
                Parsed::Hard(e) => sr == SpecParsed::Hard::<Seq<SpecExpr>>(e@),
            }
        }),
    decreases v@.len() - p, 2int,
{
    let mut out: Vec<Expr> = Vec::new();
    let mut cur = p;
    proof {
        assert(view_exprs(out@) =~= Seq::<SpecExpr>::empty());
    }
    loop
        invariant
            p <= cur <= v@.len(),
            ({
                match spec_params(v@, cur as int) {
                    SpecParsed::Done(rest, pf) => spec_params(v@, p as int) == SpecParsed::Done(
                        view_exprs(out@) + rest,
                        pf,
                    ),
                    SpecParsed::Soft(e) => spec_params(v@, p as int) == SpecParsed::Soft::<
                        Seq<SpecExpr>,
                    >(e),
                    SpecParsed::Hard(e) => spec_params(v@, p as int) == SpecParsed::Hard::<
                        Seq<SpecExpr>,
                    >(e),
                }
            }),
        decreases v@.len() - cur,
    {
        let q = ws_scan(v, cur);
        match read_symbol(v, q) {
            Parsed::Soft(_) => {
                proof {
                    assert(view_exprs(out@) + Seq::<SpecExpr>::empty() =~= view_exprs(out@));
                }
                return Parsed::Done(out, cur);
            },
            Parsed::Hard(e) => {
                return Parsed::Hard(e);
            },
            Parsed::Done(a, p2) => {
                let p3 = ws_scan(v, p2);
                let ghost out_top = out@;
                out.push(Expr::Constant(a));
                proof {
                    view_exprs_len(out@);
                    assert(out@.drop_last() =~= out_top);
                    view_exprs_push(out@.drop_last(), out@.last());
                }
                if cur < p3 && p3 <= v.len() {
                    proof {
                        match spec_params(v@, p3 as int) {
                            SpecParsed::Done(rest, pf) => {
                                assert((view_exprs(out_top) + (seq![view_expr(out@.last())]
                                    + rest)) =~= (view_exprs(out@) + rest));
                            },
                            _ => {},
                        }
                    }
                    cur = p3;
                } else {
                    proof {
                        assert((view_exprs(out_top) + seq![view_expr(out@.last())]) =~= view_exprs(
                            out@,
                        ));
                    }
                    return Parsed::Done(out, p3);
                }
            },
        }
    }
}

/// Read a `fn` form.
fn read_fn_form(v: &Vec<char>, p: usize) -> (r: Parsed<Expr>)
    requires
        p <= v@.len(),
    ensures
        ({
            let sr = spec_fn_form(v@, p as int);
            match r {
                Parsed::Done(e, p2) => sr == SpecParsed::Done(e@, p2 as int) && p2 <= v@.len(),
                Parsed::Soft(e) => sr == SpecParsed::Soft::<SpecExpr>(e@),
                Parsed::Hard(e) => sr == SpecParsed::Hard::<SpecExpr>(e@),
            }
        }),
    decreases v@.len() - p, 0int,
{
    if p < v.len() && v[p] == '(' {
        let q = ws_scan(v, p + 1);
        if q < v.len() && q + 1 < v.len() && v[q] == 'f' && v[q + 1] == 'n' {
            let q2 = ws_scan(v, q + 2);
            if q2 < v.len() && v[q2] == '(' {
                let q3 = ws_scan(v, q2 + 1);
                match read_params(v, q3) {
                    Parsed::Done(params, p2) => {
                        let at = if p < p2 && p2 <= v.len() {
                            p2
                        } else {
                            q3
                        };
                        match read_close(v, at) {
                            Ok(p3) => {
                                if p < p3 && p3 <= v.len() {
                                    match read_expr(v, p3) {
                                        Parsed::Done(body, p4) => {
                                            match read_close(v, p4) {
                                                Ok(p5) => Parsed::Done(
                                                    Expr::Function(params, Box::new(body)),
                                                    p5,
                                                ),
                                                Err(e) => Parsed::Hard(e),
                                            }
                                        },
                                        Parsed::Soft(e) => Parsed::Hard(e),
                                        Parsed::Hard(e) => Parsed::Hard(e),
                                    }
                                } else {
                                    Parsed::Hard(
                                        ParseError {
                                            pos: p3,
                                            expected: String::from_str("expression"),
                                        },
                                    )
                                }
                            },
                            Err(e) => Parsed::Hard(e),
                        }
                    },
                    Parsed::Soft(e) => Parsed::Soft(e),
                    Parsed::Hard(e) => Parsed::Hard(e),
                }
            } else {
                Parsed::Hard(ParseError { pos: q2, expected: String::from_str("(") })
            }
        } else {
            Parsed::Soft(ParseError { pos: q, expected: String::from_str("fn") })
        }
    } else {
        Parsed::Soft(ParseError { pos: p, expected: String::from_str("fn") })
    }
}

/// Read one binding.
fn read_binding(v: &Vec<char>, p: usize) -> (r: Parsed<(Atom, Box<Expr>)>)
    requires
        p <= v@.len(),
    ensures
        ({
            let sr = spec_binding(v@, p as int);
            match r {
                Parsed::Done(b, p2) => sr == SpecParsed::Done(
                    (b.0@, view_expr(*b.1)),
                    p2 as int,
                ) && p2 <= v@.len(),
                Parsed::Soft(e) => sr == SpecParsed::Soft::<(SpecAtom, SpecExpr)>(e@),
                Parsed::Hard(e) => sr == SpecParsed::Hard::<(SpecAtom, SpecExpr)>(e@),
            }
        }),
    decreases v@.len() - p, 1int,
{
    match read_lambda_binding(v, p) {
        Parsed::Soft(_) => read_regular_binding(v, p),
        r => r,
    }
}

/// Read the function sugar binding.
fn read_lambda_binding(v: &Vec<char>, p: usize) -> (r: Parsed<(Atom, Box<Expr>)>)
    requires
        p <= v@.len(),
    ensures
        ({
            let sr = spec_lambda_binding(v@, p as int);
            match r {
                Parsed::Done(b, p2) => sr == SpecParsed::Done(
                    (b.0@, view_expr(*b.1)),
                    p2 as int,
                ) && p2 <= v@.len(),
                Parsed::Soft(e) => sr == SpecParsed::Soft::<(SpecAtom, SpecExpr)>(e@),
                Parsed::Hard(e) => sr == SpecParsed::Hard::<(SpecAtom, SpecExpr)>(e@),
            }
        }),
    decreases v@.len() - p, 0int,
{
    if p < v.len() && v[p] == '(' {
        let q = ws_scan(v, p + 1);
        match read_symbol(v, q) {
            Parsed::Done(name, p2) => {
                if p < p2 && p2 <= v.len() {
                    match read_params(v, p2) {
                        Parsed::Done(params, p3) => {
                            proof {
                                view_exprs_len(params@);
                            }
                            if params.len() == 0 {
                                Parsed::Soft(
                                    ParseError { pos: p3, expected: String::from_str("symbol") },
                                )
                            } else {
                                match read_close(v, p3) {
                                    Ok(p4) => {
                                        if p < p4 && p4 <= v.len() {
                                            match read_expr(v, p4) {
                                                Parsed::Done(body, p5) => Parsed::Done(
                                                    (name, Box::new(Expr::Function(params, Box::new(body)))),
                                                    p5,
                                                ),
                                                Parsed::Soft(e) => Parsed::Soft(e),
                                                Parsed::Hard(e) => Parsed::Hard(e),
                                            }
                                        } else {
                                            Parsed::Hard(
                                                ParseError {
                                                    pos: p4,
                                                    expected: String::from_str("expression"),
                                                },
                                            )
                                        }
                                    },
                                    Err(e) => Parsed::Hard(e),
                                }
                            }
                        },
                        Parsed::Soft(e) => Parsed::Soft(e),
                        Parsed::Hard(e) => Parsed::Hard(e),
                    }
                } else {
                    Parsed::Soft(ParseError { pos: p2, expected: String::from_str("symbol") })
                }
            },
            Parsed::Soft(e) => Parsed::Soft(e),
            Parsed::Hard(e) => Parsed::Hard(e),
        }
    } else {
        Parsed::Soft(ParseError { pos: p, expected: String::from_str("binding") })
    }
}

/// Read a plain binding.
fn read_regular_binding(v: &Vec<char>, p: usize) -> (r: Parsed<(Atom, Box<Expr>)>)
    requires
        p <= v@.len(),
    ensures
        ({
            let sr = spec_regular_binding(v@, p as int);
            match r {
                Parsed::Done(b, p2) => sr == SpecParsed::Done(
                    (b.0@, view_expr(*b.1)),
                    p2 as int,
                ) && p2 <= v@.len(),
                Parsed::Soft(e) => sr == SpecParsed::Soft::<(SpecAtom, SpecExpr)>(e@),
                Parsed::Hard(e) => sr == SpecParsed::Hard::<(SpecAtom, SpecExpr)>(e@),
            }
        }),
    decreases v@.len() - p, 0int,
{
    match read_symbol(v, p) {
        Parsed::Done(name, p2) => {
            if p < p2 && p2 <= v.len() {
                match read_expr(v, p2) {
                    Parsed::Done(value, p3) => Parsed::Done((name, Box::new(value)), p3),
                    Parsed::Soft(e) => Parsed::Soft(e),
                    Parsed::Hard(e) => Parsed::Hard(e),
                }
            } else {
                Parsed::Soft(ParseError { pos: p2, expected: String::from_str("expression") })
            }
        },
        Parsed::Soft(e) => Parsed::Soft(e),
        Parsed::Hard(e) => Parsed::Hard(e),
    }
}

/// Read one or more bindings.
#[verifier::loop_isolation(false)]
fn read_bindings(v: &Vec<char>, p: usize) -> (r: Parsed<Vec<(Atom, Box<Expr>)>>)
    requires
        p <= v@.len(),
    ensures
        ({
            let sr = spec_bindings(v@, p as int);
            match r {
                Parsed::Done(bs, p2) => sr == SpecParsed::Done(view_bindings(bs@), p2 as int)
                    && p2 <= v@.len(),
                Parsed::Soft(e) => sr == SpecParsed::Soft::<Seq<(SpecAtom, SpecExpr)>>(e@),
                Parsed::Hard(e) => sr == SpecParsed::Hard::<Seq<(SpecAtom, SpecExpr)>>(e@),
            }
        }),
    decreases v@.len() - p, 2int,
{
    let q = ws_scan(v, p);
    let mut out: Vec<(Atom, Box<Expr>)> = Vec::new();
    let first = match read_binding(v, q) {
        Parsed::Done(b, p2) => (b, p2),
        Parsed::Soft(e) => {
            return Parsed::Soft(e);
        },
        Parsed::Hard(e) => {
            return Parsed::Hard(e);
        },
    };
    let (b0, p2) = first;
    let p3 = if p2 <= v.len() {
        ws_scan(v, p2)
    } else {
        p2
    };
    out.push(b0);
    proof {
        view_bindings_len(out@);
        assert(out@.drop_last() =~= Seq::<(Atom, Box<Expr>)>::empty());
        view_bindings_push(out@.drop_last(), out@.last());
        assert(view_bindings(out@) =~= seq![
            (out@.last().0@, view_expr(*out@.last().1)),
        ]);
    }
    if !(q < p3 && p3 <= v.len()) {
        return Parsed::Done(out, p3);
    }
    let mut cur = p3;
    loop
        invariant
            p <= cur <= v@.len(),
            out@.len() >= 1,
            ({
                match spec_more_bindings(v@, cur as int) {
                    SpecParsed::Done(rest, pf) => spec_bindings(v@, p as int) == SpecParsed::Done(
                        view_bindings(out@) + rest,
                        pf,
                    ),
                    SpecParsed::Soft(e) => spec_bindings(v@, p as int) == SpecParsed::Soft::<
                        Seq<(SpecAtom, SpecExpr)>,
                    >(e),
                    SpecParsed::Hard(e) => spec_bindings(v@, p as int) == SpecParsed::Hard::<
                        Seq<(SpecAtom, SpecExpr)>,
                    >(e),
                }
            }),
        decreases v@.len() - cur,
    {
        match read_binding(v, cur) {
            Parsed::Soft(_) => {
                proof {
                    assert(view_bindings(out@) + Seq::<(SpecAtom, SpecExpr)>::empty()
                        =~= view_bindings(out@));
                }
                return Parsed::Done(out, cur);
            },
            Parsed::Hard(e) => {
                return Parsed::Hard(e);
            },
            Parsed::Done(b, p2b) => {
                let p3b = if p2b <= v.len() {
                    ws_scan(v, p2b)
                } else {
                    p2b
                };
                let ghost out_top = out@;
                out.push(b);
                proof {
                    view_bindings_len(out@);
                    assert(out@.drop_last() =~= out_top);
                    view_bindings_push(out@.drop_last(), out@.last());
                }
                if cur < p3b && p3b <= v.len() {
                    proof {
                        match spec_more_bindings(v@, p3b as int) {
                            SpecParsed::Done(rest, pf) => {
                                assert((view_bindings(out_top) + (seq![
                                    (out@.last().0@, view_expr(*out@.last().1)),
                                ] + rest)) =~= (view_bindings(out@) + rest));
                            },
                            _ => {},
                        }
                    }
                    cur = p3b;
                } else {
                    proof {
                        assert((view_bindings(out_top) + seq![
                            (out@.last().0@, view_expr(*out@.last().1)),
                        ]) =~= view_bindings(out@));
                    }
                    return Parsed::Done(out, p3b);
                }
            },
        }
    }
}

/// Read a `let` form.
fn read_let(v: &Vec<char>, p: usize) -> (r: Parsed<Expr>)
    requires
        p <= v@.len(),
    ensures
        ({
            let sr = spec_let(v@, p as int);
            match r {
                Parsed::Done(e, p2) => sr == SpecParsed::Done(e@, p2 as int) && p2 <= v@.len(),
                Parsed::Soft(e) => sr == SpecParsed::Soft::<SpecExpr>(e@),
                Parsed::Hard(e) => sr == SpecParsed::Hard::<SpecExpr>(e@),
            }
        }),
    decreases v@.len() - p, 0int,
{
    if p < v.len() && v[p] == '(' {
        let q = ws_scan(v, p + 1);
        if q < v.len() && q + 1 < v.len() && q + 2 < v.len() && v[q] == 'l' && v[q + 1] == 'e' && v[q + 2] == 't' {
            let q2 = q + 3;
            match read_bindings(v, q2) {
                Parsed::Done(bs, p2) => {
                    let at = if p < p2 && p2 <= v.len() {
                        p2
                    } else {
                        q2
                    };
                    match read_close(v, at) {
                        Ok(p3) => Parsed::Done(Expr::Let(bs), p3),
                        Err(e) => Parsed::Hard(e),
                    }
                },
                Parsed::Soft(e) => Parsed::Soft(e),
                Parsed::Hard(e) => Parsed::Hard(e),
            }
        } else {
            Parsed::Soft(ParseError { pos: q, expected: String::from_str("let") })
        }
    } else {
        Parsed::Soft(ParseError { pos: p, expected: String::from_str("let") })
    }
}

/// Read a call.
fn read_call(v: &Vec<char>, p: usize) -> (r: Parsed<Expr>)
    requires
        p <= v@.len(),
    ensures
        ({
            let sr = spec_call(v@, p as int);
            match r {
                Parsed::Done(e, p2) => sr == SpecParsed::Done(e@, p2 as int) && p2 <= v@.len(),
                Parsed::Soft(e) => sr == SpecParsed::Soft::<SpecExpr>(e@),
                Parsed::Hard(e) => sr == SpecParsed::Hard::<SpecExpr>(e@),
            }
        }),
    decreases v@.len() - p, 0int,
{
    if p < v.len() && v[p] == '(' {
        let q = ws_scan(v, p + 1);
        match read_expr(v, q) {
            Parsed::Done(h, p2) => {
                if p < p2 && p2 <= v.len() {
                    match read_exprs(v, p2) {
                        Parsed::Done(args, p3) => {
                            match read_close(v, p3) {
                                Ok(p4) => Parsed::Done(Expr::Call(Box::new(h), args), p4),
                                Err(e) => Parsed::Hard(e),
                            }
                        },
                        Parsed::Soft(e) => Parsed::Soft(e),
                        Parsed::Hard(e) => Parsed::Hard(e),
                    }
                } else {
                    Parsed::Hard(
                        ParseError { pos: p2, expected: String::from_str("expression") },
                    )
                }
            },
            Parsed::Soft(e) => Parsed::Soft(e),
            Parsed::Hard(e) => Parsed::Hard(e),
        }
    } else {
        Parsed::Soft(ParseError { pos: p, expected: String::from_str("call") })
    }
}

/// Read one expression.
fn read_expr(v: &Vec<char>, p: usize) -> (r: Parsed<Expr>)
    requires
        p <= v@.len(),
    ensures
        ({
            let sr = spec_expr(v@, p as int);
            match r {
                Parsed::Done(e, p2) => sr == SpecParsed::Done(e@, p2 as int) && p2 <= v@.len(),
                Parsed::Soft(e) => sr == SpecParsed::Soft::<SpecExpr>(e@),
                Parsed::Hard(e) => sr == SpecParsed::Hard::<SpecExpr>(e@),
            }
        }),
    decreases v@.len() - p, 3int,
{
    let q = ws_scan(v, p);
    let r = read_quote(v, q);
    match r {
        Parsed::Soft(_) => {},
        Parsed::Hard(e) => {
            return Parsed::Hard(e);
        },
        Parsed::Done(e, p2) => {
            return Parsed::Done(e, ws_scan(v, p2));
        },
    }
    match read_nil(v, q) {
        Parsed::Soft(_) => {},
        Parsed::Hard(e) => {
            return Parsed::Hard(e);
        },
        Parsed::Done(e, p2) => {
            return Parsed::Done(e, ws_scan(v, p2));
        },
    }
    match read_atom(v, q) {
        Parsed::Soft(_) => {},
        Parsed::Hard(e) => {
            return Parsed::Hard(e);
        },
        Parsed::Done(a, p2) => {
            return Parsed::Done(Expr::Constant(a), ws_scan(v, p2));
        },
    }
    match read_if(v, q) {
        Parsed::Soft(_) => {},
        Parsed::Hard(e) => {
            return Parsed::Hard(e);
        },
        Parsed::Done(e, p2) => {
            return Parsed::Done(e, ws_scan(v, p2));
        },
    }
    match read_let(v, q) {
        Parsed::Soft(_) => {},
        Parsed::Hard(e) => {
            return Parsed::Hard(e);
        },
        Parsed::Done(e, p2) => {
            return Parsed::Done(e, ws_scan(v, p2));
        },
    }
    match read_fn_form(v, q) {
        Parsed::Soft(_) => {},
        Parsed::Hard(e) => {
            return Parsed::Hard(e);
        },
        Parsed::Done(e, p2) => {
            return Parsed::Done(e, ws_scan(v, p2));
        },
    }
    match read_call(v, q) {
        Parsed::Soft(_) => {},
        Parsed::Hard(e) => {
            return Parsed::Hard(e);
        },
        Parsed::Done(e, p2) => {
            return Parsed::Done(e, ws_scan(v, p2));
        },
    }
    Parsed::Soft(ParseError { pos: q, expected: String::from_str("expression") })
}

/// Read zero or more expressions.
#[verifier::loop_isolation(false)]
fn read_exprs(v: &Vec<char>, p: usize) -> (r: Parsed<Vec<Expr>>)
    requires
        p <= v@.len(),
    ensures
        ({
            let sr = spec_exprs(v@, p as int);
            match r {
                Parsed::Done(es, p2) => sr == SpecParsed::Done(view_exprs(es@), p2 as int) && p2
                    <= v@.len(),
                Parsed::Soft(e) => sr == SpecParsed::Soft::<Seq<SpecExpr>>(e@),
                Parsed::Hard(e) => sr == SpecParsed::Hard::<Seq<SpecExpr>>(e@),
            }
        }),
    decreases v@.len() - p, 4int,
{
    let mut out: Vec<Expr> = Vec::new();
    let mut cur = p;
    proof {
        assert(view_exprs(out@) =~= Seq::<SpecExpr>::empty());
    }
    loop
        invariant
            p <= cur <= v@.len(),
            ({
                match spec_exprs(v@, cur as int) {
                    SpecParsed::Done(rest, pf) => spec_exprs(v@, p as int) == SpecParsed::Done(
                        view_exprs(out@) + rest,
                        pf,
                    ),
                    SpecParsed::Soft(e) => spec_exprs(v@, p as int) == SpecParsed::Soft::<
                        Seq<SpecExpr>,
                    >(e),
                    SpecParsed::Hard(e) => spec_exprs(v@, p as int) == SpecParsed::Hard::<
                        Seq<SpecExpr>,
                    >(e),
                }
            }),
        decreases v@.len() - cur,
    {
        match read_expr(v, cur) {
            Parsed::Soft(_) => {
                proof {
                    assert(view_exprs(out@) + Seq::<SpecExpr>::empty() =~= view_exprs(out@));
                }
                return Parsed::Done(out, cur);
            },
            Parsed::Hard(e) => {
                return Parsed::Hard(e);
            },
            Parsed::Done(e, p2) => {
                let ghost out_top = out@;
                out.push(e);
                proof {
                    view_exprs_len(out@);
                    assert(out@.drop_last() =~= out_top);
                    view_exprs_push(out@.drop_last(), out@.last());
                }
                if cur < p2 && p2 <= v.len() {
                    proof {
                        match spec_exprs(v@, p2 as int) {
                            SpecParsed::Done(rest, pf) => {
                                assert((view_exprs(out_top) + (seq![view_expr(out@.last())]
                                    + rest)) =~= (view_exprs(out@) + rest));
                            },
                            _ => {},
                        }
                    }
                    cur = p2;
                } else {
                    proof {
                        assert((view_exprs(out_top) + seq![view_expr(out@.last())]) =~= view_exprs(
                            out@,
                        ));
                    }
                    return Parsed::Done(out, p2);
                }
            },
        }
    }
}

/// Read a whole program: one or more expressions, and nothing left over.
///
/// Doubles come back holding their literal text as written; the evaluator's
/// host canonicalizes them through the query table (see the floats module).
pub fn parse(input: &str) -> (r: Result<Vec<Expr>, ParseError>)
    ensures
        ({
            let sr = spec_program(input@);
            match r {
                Ok(es) => sr == Ok::<Seq<SpecExpr>, SpecParseError>(view_exprs(es@)),
                Err(e) => sr == Err::<Seq<SpecExpr>, SpecParseError>(e@),
            }
        }),
{
    let v = crate::text::chars_of(input);
    match read_expr(&v, 0) {
        Parsed::Soft(e) => Err(e),
        Parsed::Hard(e) => Err(e),
        Parsed::Done(e1, p1) => {
            if 0 < p1 && p1 <= v.len() {
                match read_exprs(&v, p1) {
                    Parsed::Done(rest, p2) => {
                        if p2 == v.len() {
                            let ghost e1v = view_expr(e1);
                            let ghost restv = rest@;
                            let mut all: Vec<Expr> = Vec::new();
                            all.push(e1);
                            let mut rest2 = rest;
                            all.append(&mut rest2);
                            proof {
                                assert(all@ =~= seq![all@[0]] + restv);
                                view_exprs_len(all@);
                                view_exprs_len(restv);
                                assert(view_exprs(all@).len() == 1 + view_exprs(restv).len());
                                assert forall|j: int|
                                    0 <= j < view_exprs(all@).len() implies view_exprs(all@)[j]
                                    == (seq![e1v] + view_exprs(restv))[j] by {
                                    view_exprs_index(all@, j);
                                    if j == 0 {
                                        assert(all@[0] == seq![all@[0]][0]);
                                    } else {
                                        view_exprs_index(restv, j - 1);
                                        assert(all@[j] == restv[j - 1]);
                                    }
                                }
                                assert(view_exprs(all@) =~= seq![e1v] + view_exprs(restv));
                            }
                            Ok(all)
                        } else {
                            Err(
                                ParseError {
                                    pos: p2,
                                    expected: String::from_str("end of input"),
                                },
                            )
                        }
                    },
                    Parsed::Soft(e) => Err(e),
                    Parsed::Hard(e) => Err(e),
                }
            } else {
                Err(ParseError { pos: p1, expected: String::from_str("end of input") })
            }
        },
    }
}

} // verus!
