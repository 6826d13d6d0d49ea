use crisp::ast::{Atom, BuiltIn, Expr};
use crisp::parse::parse;
use crisp::prims::{as_byte_range, car, cdr, stdlib};
use crisp::print::to_text;

fn parse_one(input: &str) -> Expr {
    let mut es = parse(input).expect("parse failed");
    assert_eq!(es.len(), 1, "expected one expression");
    es.remove(0)
}

#[test]
fn atoms_parse_and_print() {
    assert_eq!(to_text(&parse_one("42")), "42");
    assert_eq!(to_text(&parse_one("-7")), "-7");
    assert_eq!(to_text(&parse_one("007")), "7");
    assert_eq!(to_text(&parse_one("-0")), "0");
    assert_eq!(to_text(&parse_one(":key")), ":key");
    assert_eq!(to_text(&parse_one("abc-d?")), "abc-d?");
    assert_eq!(to_text(&parse_one("\"hi there\"")), "\"hi there\"");
    assert_eq!(to_text(&parse_one("'.'")), "'.'");
    assert_eq!(to_text(&parse_one("nil")), "nil");
    assert_eq!(to_text(&parse_one("+")), "+");
    assert_eq!(to_text(&parse_one("!=")), "!=");
    assert_eq!(to_text(&parse_one(">=")), ">=");
    assert_eq!(to_text(&parse_one("||")), "||");
}

#[test]
fn forms_parse_and_print() {
    assert_eq!(to_text(&parse_one("(+ 1 2)")), "(+ 1 2)");
    assert_eq!(to_text(&parse_one("( +   1   2 )")), "(+ 1 2)");
    assert_eq!(to_text(&parse_one("(if a b c)")), "(if a b c)");
    assert_eq!(to_text(&parse_one("(if a b)")), "(if a b)");
    assert_eq!(to_text(&parse_one("(let a 1 b 2)")), "(let a 1 b 2)");
    assert_eq!(to_text(&parse_one("(fn (x y) (+ x y))")), "(fn (x y) (+ x y))");
    assert_eq!(to_text(&parse_one("'(1 2 3)")), "(1 2 3)");
    assert_eq!(to_text(&parse_one("'x")), "x");
    assert_eq!(to_text(&parse_one("(f)")), "(f)");
}

#[test]
fn let_function_sugar_builds_a_function() {
    assert_eq!(
        to_text(&parse_one("(let (add a b) (+ a b))")),
        "(let add (fn (a b) (+ a b)))"
    );
}

#[test]
fn round_trip_is_stable_for_plain_expressions() {
    for src in [
        "42",
        "-7",
        ":key",
        "abc",
        "\"s\"",
        "(+ 1 2)",
        "(if a b c)",
        "(let a 1)",
        "(fn (x) x)",
        "(f (g 1) 2)",
        "nil",
    ] {
        let printed = to_text(&parse_one(src));
        let reparsed = to_text(&parse_one(&printed));
        assert_eq!(printed, reparsed, "round trip changed {:?}", src);
    }
}

#[test]
fn several_expressions_parse_in_order() {
    let es = parse("1 two \"three\"").expect("parse failed");
    let texts: Vec<String> = es.iter().map(|e| to_text(e)).collect();
    assert_eq!(texts, vec!["1", "two", "\"three\""]);
}

#[test]
fn float_literals_keep_their_text_until_canonicalized() {
    assert_eq!(to_text(&parse_one("1.50")), "1.50");
    assert_eq!(to_text(&parse_one("-2.25")), "-2.25");
}

#[test]
fn trailing_garbage_is_a_parse_error() {
    let err = parse("1 )").unwrap_err();
    assert_eq!(err.expected, "end of input");
    assert_eq!(err.pos, 2);
}

#[test]
fn empty_input_is_a_parse_error() {
    assert!(parse("").is_err());
    assert!(parse("   ").is_err());
}

#[test]
fn unclosed_string_is_a_hard_error() {
    let err = parse("\"abc").unwrap_err();
    assert_eq!(err.expected, "string");
}

#[test]
fn unclosed_call_is_an_error() {
    let err = parse("(+ 1 2").unwrap_err();
    assert_eq!(err.expected, ")");
}

#[test]
fn bare_colon_is_a_hard_error() {
    let err = parse(":5").unwrap_err();
    assert_eq!(err.expected, "keyword");
}

#[test]
fn nil_prefix_splits_into_nil_and_a_symbol() {
    let es = parse("nilx").expect("parse failed");
    let texts: Vec<String> = es.iter().map(|e| to_text(e)).collect();
    assert_eq!(texts, vec!["nil", "x"]);
}

#[test]
fn minus_before_digits_is_a_number_before_letters_an_operator() {
    assert_eq!(to_text(&parse_one("-12")), "-12");
    let es = parse("-abc").expect("parse failed");
    let texts: Vec<String> = es.iter().map(|e| to_text(e)).collect();
    assert_eq!(texts, vec!["-", "abc"]);
}

#[test]
fn car_and_cdr_work_on_slices() {
    let xs = [1, 2, 3];
    assert_eq!(car(&xs), Some(&1));
    assert_eq!(cdr(&xs), Some(&xs[1..]));
    let empty: [i32; 0] = [];
    assert_eq!(car(&empty), None);
    assert_eq!(cdr(&empty), None);
}

#[test]
fn stdlib_dispatches_car_and_cdr() {
    let head = Expr::Constant(Atom::Symbol("car".to_string()));
    let args = [Expr::Quote(vec![
        Expr::Constant(Atom::Number("1".to_string())),
        Expr::Constant(Atom::Number("2".to_string())),
    ])];
    match stdlib(&head, &args) {
        Ok(v) => assert_eq!(to_text(&v), "1"),
        Err(e) => panic!("stdlib failed: {:?}", e),
    }
    let bad = Expr::Constant(Atom::Symbol("cons".to_string()));
    assert!(stdlib(&bad, &args).is_err());
}

#[test]
fn byte_ranges_are_offset_and_length() {
    assert_eq!(as_byte_range("hello world", 6, 5), (6, 11));
    assert_eq!(as_byte_range("hello", 0, 0), (0, 0));
}

#[test]
fn operators_print_their_tokens() {
    let ops = [
        (BuiltIn::Plus, "+"),
        (BuiltIn::Minus, "-"),
        (BuiltIn::Times, "*"),
        (BuiltIn::Divide, "/"),
        (BuiltIn::Equal, "="),
        (BuiltIn::NotEqual, "!="),
        (BuiltIn::Not, "!"),
        (BuiltIn::GreaterEqual, ">="),
        (BuiltIn::Greater, ">"),
        (BuiltIn::LessEqual, "<="),
        (BuiltIn::Less, "<"),
        (BuiltIn::And, "&&"),
        (BuiltIn::Or, "||"),
    ];
    for (op, text) in ops {
        assert_eq!(to_text(&Expr::Constant(Atom::BuiltIn(op))), text);
    }
}

#[test]
fn printed_special_forms_stay_special() {
    // a printed `if` reads back as an `if`, not as a call
    let e = parse_one("(if x 1 2)");
    match parse_one(&to_text(&e)) {
        Expr::If(_, _, _) => {},
        other => panic!("expected an if, got {:?}", other),
    }
}
