use crisp::ast::{BuiltIn, Expr};
use crisp::eval::{Context, EvalError};
use crisp::floats::{FloatAnswer, FloatQuery};
use crisp::parse::ParseError;
use crisp::parse_and_eval;
use crisp::print::to_text;

/// Compute one double operation the library asked for, with the host's
/// floating point and its default formatting.
fn compute(q: &FloatQuery) -> FloatAnswer {
    match q {
        FloatQuery::Lit(text) => {
            let v: f64 = text.parse().unwrap();
            FloatAnswer::Text(format!("{}", v))
        },
        FloatQuery::Bin(op, a, b) => {
            let x: f64 = a.parse().unwrap();
            let y: f64 = b.parse().unwrap();
            let v = match op {
                BuiltIn::Plus => x + y,
                BuiltIn::Minus => x - y,
                BuiltIn::Times => x * y,
                BuiltIn::Divide => x / y,
                _ => panic!("unexpected operator in query"),
            };
            FloatAnswer::Text(format!("{}", v))
        },
        FloatQuery::Cmp(op, a, b) => {
            let x: f64 = a.parse().unwrap();
            let y: f64 = b.parse().unwrap();
            let t = match op {
                BuiltIn::Greater => x > y,
                BuiltIn::Less => x < y,
                BuiltIn::GreaterEqual => x >= y,
                BuiltIn::LessEqual => x <= y,
                _ => panic!("unexpected operator in query"),
            };
            FloatAnswer::Truth(t)
        },
    }
}

/// Run a program, answering every double query the library raises.
fn drive(
    input: &str,
    ctx: &mut Context,
) -> Result<Result<Vec<Expr>, Vec<EvalError>>, ParseError> {
    loop {
        let mut trial = ctx.duplicate();
        let r = parse_and_eval(input, &mut trial);
        let missing: Option<FloatQuery> = match &r {
            Ok(Err(errs)) => errs.iter().find_map(|e| match e {
                EvalError::MissingFloat(q) => Some(q.clone()),
                _ => None,
            }),
            _ => None,
        };
        match missing {
            Some(q) => {
                let a = compute(&q);
                ctx.answer_float(q, a);
            },
            None => {
                *ctx = trial;
                return r;
            },
        }
    }
}

fn run(input: &str) -> Vec<String> {
    let mut ctx = Context::new();
    match drive(input, &mut ctx) {
        Ok(Ok(vals)) => vals.iter().map(|v| to_text(v)).collect(),
        Ok(Err(errs)) => panic!("evaluation failed: {:?}", errs),
        Err(pe) => panic!("parse failed: {:?}", pe),
    }
}

fn run_errs(input: &str) -> Vec<EvalError> {
    let mut ctx = Context::new();
    match drive(input, &mut ctx) {
        Ok(Err(errs)) => errs,
        Ok(Ok(vals)) => panic!("unexpectedly succeeded: {:?}", vals),
        Err(pe) => panic!("parse failed: {:?}", pe),
    }
}

#[test]
fn adding_doubles_prints_the_host_default() {
    assert_eq!(run("(+ 1.5 2.5)"), vec!["4".to_string()]);
}

#[test]
fn mixing_an_integer_and_a_double_is_a_type_error() {
    let errs = run_errs("(+ 1 2.0)");
    match &errs[0] {
        EvalError::TypeError(msg) => {
            assert_eq!(msg, "+ expects number(s) or float(s), found none")
        },
        other => panic!("wrong error: {:?}", other),
    }
}

#[test]
fn double_literals_are_canonicalized() {
    assert_eq!(run("1.50"), vec!["1.5".to_string()]);
    assert_eq!(run("-0.25"), vec!["-0.25".to_string()]);
}

#[test]
fn double_arithmetic_follows_the_host() {
    assert_eq!(run("(* 1.5 2.0)"), vec!["3".to_string()]);
    assert_eq!(run("(- 5.5 0.25)"), vec!["5.25".to_string()]);
    assert_eq!(run("(/ 1.0 4.0)"), vec!["0.25".to_string()]);
    assert_eq!(run("(+ 0.1 0.2)"), vec!["0.30000000000000004".to_string()]);
}

#[test]
fn double_comparisons_follow_the_host() {
    assert_eq!(run("(> 2.5 1.5)"), vec!["T".to_string()]);
    assert_eq!(run("(< 2.5 1.5)"), vec!["nil".to_string()]);
    assert_eq!(run("(>= 1.5 1.50)"), vec!["T".to_string()]);
    assert_eq!(run("(<= 1.5 1.25)"), vec!["nil".to_string()]);
}

#[test]
fn mixed_comparison_pairs_are_false_not_errors() {
    assert_eq!(run("(> 2.5 1)"), vec!["nil".to_string()]);
    assert_eq!(run("(> 'a 'b)"), vec!["nil".to_string()]);
}

#[test]
fn equal_doubles_compare_equal_after_canonicalization() {
    assert_eq!(run("(= 1.50 1.5)"), vec!["T".to_string()]);
}

#[test]
fn division_by_a_zero_double_is_infinite() {
    assert_eq!(run("(/ 1.0 0.0)"), vec!["inf".to_string()]);
}

#[test]
fn an_unanswered_query_surfaces_as_missing() {
    let mut ctx = Context::new();
    match parse_and_eval("(+ 1.5 2.5)", &mut ctx) {
        Ok(Err(errs)) => match &errs[0] {
            EvalError::MissingFloat(FloatQuery::Lit(text)) => assert_eq!(text, "1.5"),
            other => panic!("wrong error: {:?}", other),
        },
        other => panic!("wrong outcome: {:?}", other),
    }
}
