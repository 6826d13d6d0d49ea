use crisp::ast::{Atom, BuiltIn, Expr};
use crisp::eval::{Context, EvalError};
use crisp::parse_and_eval;
use crisp::print::to_text;

fn run(input: &str) -> Vec<String> {
    let mut ctx = Context::new();
    match parse_and_eval(input, &mut ctx) {
        Ok(Ok(vals)) => vals.iter().map(|v| to_text(v)).collect(),
        Ok(Err(errs)) => panic!("evaluation failed: {:?}", errs),
        Err(pe) => panic!("parse failed: {:?}", pe),
    }
}

fn run_errs(input: &str) -> Vec<EvalError> {
    let mut ctx = Context::new();
    match parse_and_eval(input, &mut ctx) {
        Ok(Err(errs)) => errs,
        Ok(Ok(vals)) => panic!("unexpectedly succeeded: {:?}", vals),
        Err(pe) => panic!("parse failed: {:?}", pe),
    }
}

#[test]
fn adds_three_integers() {
    assert_eq!(run("(+ 1 2 3)"), vec!["6".to_string()]);
}

#[test]
fn squares_through_a_binding() {
    assert_eq!(
        run("(let square (fn (x) (* x x))) (square 9)"),
        vec!["nil".to_string(), "81".to_string()]
    );
}

#[test]
fn factorial_of_ten() {
    assert_eq!(
        run("(let (fact n) (if (<= n 1) 1 (* n (fact (- n 1))))) (fact 10)"),
        vec!["nil".to_string(), "3628800".to_string()]
    );
}

#[test]
fn factorial_exceeds_machine_words() {
    let out = run("(let (fact n) (if (<= n 1) 1 (* n (fact (- n 1))))) (fact 30)");
    assert_eq!(out[1], "265252859812191058636308480000000");
}

#[test]
fn if_on_equality_of_sums() {
    assert_eq!(run("(if (= (+ 1 1) 2) 'yes 'no)"), vec!["yes".to_string()]);
}

#[test]
fn car_and_cdr_of_quoted_list() {
    assert_eq!(run("(car '(1 2 3))"), vec!["1".to_string()]);
    assert_eq!(run("(cdr '(1 2 3))"), vec!["(2 3)".to_string()]);
}

#[test]
fn cdr_of_two_element_list_is_the_element() {
    assert_eq!(run("(cdr '(1 2))"), vec!["2".to_string()]);
}

#[test]
fn car_and_cdr_of_nil_and_empty() {
    assert_eq!(run("(car nil)"), vec!["nil".to_string()]);
    assert_eq!(run("(cdr nil)"), vec!["nil".to_string()]);
    assert_eq!(run("(car '())"), vec!["nil".to_string()]);
    assert_eq!(run("(cdr '())"), vec!["nil".to_string()]);
}

#[test]
fn shadowing_car_wins_over_the_primitive() {
    // with the primitive, (car 5) would be a type error; the binding wins
    assert_eq!(
        run("(let car (fn (x) x)) (car 5)"),
        vec!["nil".to_string(), "5".to_string()]
    );
}

#[test]
fn subtraction_and_division_fold_left() {
    assert_eq!(run("(- 10 1 2)"), vec!["7".to_string()]);
    assert_eq!(run("(/ 100 5 2)"), vec!["10".to_string()]);
    assert_eq!(run("(/ 7 2)"), vec!["3".to_string()]);
    assert_eq!(run("(/ -7 2)"), vec!["-3".to_string()]);
}

#[test]
fn empty_sum_and_product_are_integers() {
    assert_eq!(run("(+)"), vec!["0".to_string()]);
    assert_eq!(run("(*)"), vec!["1".to_string()]);
}

#[test]
fn comparison_chains() {
    assert_eq!(run("(> 3 2 1)"), vec!["T".to_string()]);
    assert_eq!(run("(> 3 2 2)"), vec!["nil".to_string()]);
    assert_eq!(run("(<= 1 1 2)"), vec!["T".to_string()]);
    assert_eq!(run("(< 1 2)"), vec!["T".to_string()]);
    assert_eq!(run("(>= 2 2)"), vec!["T".to_string()]);
}

#[test]
fn equality_is_adjacent_pairwise() {
    assert_eq!(run("(= 1 1 1)"), vec!["T".to_string()]);
    assert_eq!(run("(= 1 2 1)"), vec!["nil".to_string()]);
    assert_eq!(run("(!= 1 2 1)"), vec!["T".to_string()]);
    assert_eq!(run("(= 'a 'a)"), vec!["T".to_string()]);
    assert_eq!(run("(=)"), vec!["T".to_string()]);
}

#[test]
fn logic_operators_use_truthiness() {
    assert_eq!(run("(&& 1 2)"), vec!["T".to_string()]);
    assert_eq!(run("(&& 1 nil)"), vec!["nil".to_string()]);
    assert_eq!(run("(|| nil 1)"), vec!["T".to_string()]);
    assert_eq!(run("(|| nil nil)"), vec!["nil".to_string()]);
    assert_eq!(run("(! nil)"), vec!["T".to_string()]);
    assert_eq!(run("(! 3)"), vec!["nil".to_string()]);
    assert_eq!(run("(! '())"), vec!["T".to_string()]);
}

#[test]
fn quote_evaluates_to_itself() {
    assert_eq!(run("'(1 2 3)"), vec!["(1 2 3)".to_string()]);
    assert_eq!(run("'x"), vec!["x".to_string()]);
}

#[test]
fn partial_application_leaves_a_function() {
    assert_eq!(
        run("(let f (fn (x y) (+ x y))) (f 1)"),
        vec!["nil".to_string(), "(fn (y) (+ 1 y))".to_string()]
    );
    assert_eq!(
        run("(let f (fn (x y) (+ x y))) ((f 1) 2)"),
        vec!["nil".to_string(), "3".to_string()]
    );
}

#[test]
fn unused_parameter_is_not_consumed() {
    // substituting into a body that never mentions the parameter marks
    // nothing, so the argument is dropped and the function is unchanged
    assert_eq!(
        run("(let f (fn (x y) 5)) (f 1)"),
        vec!["nil".to_string(), "(fn (x y) 5)".to_string()]
    );
}

#[test]
fn later_let_bindings_see_earlier_ones() {
    assert_eq!(
        run("(let a 2 b (+ a 1)) b"),
        vec!["nil".to_string(), "3".to_string()]
    );
}

#[test]
fn evaluation_is_deterministic_across_runs() {
    let one = run("(let (f n) (if (< n 2) n (+ (f (- n 1)) (f (- n 2))))) (f 12)");
    let two = run("(let (f n) (if (< n 2) n (+ (f (- n 1)) (f (- n 2))))) (f 12)");
    assert_eq!(one, two);
    assert_eq!(one[1], "144");
}

#[test]
fn unbound_symbol_reports_its_name() {
    let errs = run_errs("missing");
    assert_eq!(errs.len(), 1);
    match &errs[0] {
        EvalError::UnboundSymbol(name) => assert_eq!(name, "missing"),
        other => panic!("wrong error: {:?}", other),
    }
}

#[test]
fn truth_symbol_is_not_bound() {
    let errs = run_errs("(= 1 1) T");
    assert_eq!(errs.len(), 1);
    match &errs[0] {
        EvalError::UnboundSymbol(name) => assert_eq!(name, "T"),
        other => panic!("wrong error: {:?}", other),
    }
}

#[test]
fn division_by_zero_is_a_domain_error() {
    let errs = run_errs("(/ 1 0)");
    match &errs[0] {
        EvalError::DomainError(msg) => assert_eq!(msg, "Division by zero"),
        other => panic!("wrong error: {:?}", other),
    }
}

#[test]
fn too_many_arguments_is_an_arity_error() {
    let errs = run_errs("((fn (x) x) 1 2)");
    match &errs[0] {
        EvalError::Arity(expected, got) => {
            assert_eq!(*expected, 1);
            assert_eq!(*got, 2);
        },
        other => panic!("wrong error: {:?}", other),
    }
}

#[test]
fn not_takes_exactly_one_argument() {
    let errs = run_errs("(! 1 2)");
    match &errs[0] {
        EvalError::Arity(expected, got) => {
            assert_eq!(*expected, 1);
            assert_eq!(*got, 2);
        },
        other => panic!("wrong error: {:?}", other),
    }
}

#[test]
fn if_without_else_on_false_is_no_branch() {
    let errs = run_errs("(if nil 1)");
    match &errs[0] {
        EvalError::NoBranch(msg) => assert_eq!(msg, "No branches of predicate ran: nil"),
        other => panic!("wrong error: {:?}", other),
    }
}

#[test]
fn mixing_numbers_and_strings_is_a_type_error() {
    let errs = run_errs("(+ 1 \"x\")");
    match &errs[0] {
        EvalError::TypeError(msg) => {
            assert_eq!(msg, "+ expects number(s) or float(s), found none")
        },
        other => panic!("wrong error: {:?}", other),
    }
}

#[test]
fn subtracting_a_string_names_the_offender() {
    let errs = run_errs("(- 1 \"x\")");
    match &errs[0] {
        EvalError::TypeError(msg) => assert_eq!(msg, "Invalid number passed: \"x\""),
        other => panic!("wrong error: {:?}", other),
    }
}

#[test]
fn let_binding_must_name_a_symbol() {
    let mut ctx = Context::new();
    let bad = Expr::Let(vec![(
        Atom::Number("1".to_string()),
        Box::new(Expr::Nil),
    )]);
    match ctx.eval(bad) {
        Err(EvalError::TypeError(msg)) => {
            assert_eq!(msg, "Expected symbol, found following: 1")
        },
        other => panic!("wrong outcome: {:?}", other),
    }
}

#[test]
fn errors_are_collected_and_evaluation_continues() {
    let mut ctx = Context::new();
    match parse_and_eval("missing (let a 5) also", &mut ctx) {
        Ok(Err(errs)) => {
            assert_eq!(errs.len(), 2);
            // the let between the failures still ran
            match parse_and_eval("a", &mut ctx) {
                Ok(Ok(vals)) => assert_eq!(to_text(&vals[0]), "5"),
                other => panic!("wrong outcome: {:?}", other),
            }
        },
        other => panic!("wrong outcome: {:?}", other),
    }
}

#[test]
fn calling_a_plain_value_returns_it() {
    assert_eq!(run("(1 2 3)"), vec!["1".to_string()]);
}

#[test]
fn builtin_heads_can_be_computed() {
    let mut ctx = Context::new();
    let plus = Expr::Constant(Atom::BuiltIn(BuiltIn::Plus));
    let call = Expr::Call(
        Box::new(plus),
        vec![
            Expr::Constant(Atom::Number("2".to_string())),
            Expr::Constant(Atom::Number("40".to_string())),
        ],
    );
    match ctx.eval(call) {
        Ok(v) => assert_eq!(to_text(&v), "42"),
        other => panic!("wrong outcome: {:?}", other),
    }
}
