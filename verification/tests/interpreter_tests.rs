use tachyon::interpreter::{eval, eval_expr, CalcError, EvalError, FnTable, Reducer};
use tachyon::numeral::Numeral;
use tachyon::parser::{Expr, FnExpr, Identifier, ParseError, Parser};
use tachyon::value::Value;

fn int_expr(digits: &[u8]) -> Expr {
    Expr::Number(Numeral { negative: false, int_digits: digits.to_vec(), frac_digits: Vec::new() })
}

fn call(op: &str, args: Vec<Expr>) -> Expr {
    Expr::FnExprPtr(Box::new(FnExpr { op: Identifier(String::from(op)), args }))
}

fn whole(n: i64) -> Result<Value, CalcError> {
    Ok(Value::Finite { num: n, den: 1 })
}

#[test]
fn test_eval_expr() {
    let table = FnTable::builtin();
    let run = |source: &str| {
        let e = Parser::new(source).parse_expression().unwrap();
        eval_expr(&e, &table)
    };
    assert_eq!(run("(+ 9 0)"), Ok(Value::Finite { num: 9, den: 1 }));
    assert_eq!(run("(+ 4 1)"), Ok(Value::Finite { num: 5, den: 1 }));
    assert_eq!(run("(+ 321 48)"), Ok(Value::Finite { num: 369, den: 1 }));

    assert_eq!(run("(* 4 6)"), Ok(Value::Finite { num: 24, den: 1 }));
    assert_eq!(run("(* 24 10)"), Ok(Value::Finite { num: 240, den: 1 }));

    assert_eq!(
        run("(+ (* 23 11) (* 2 (- 3 4)))"),
        Ok(Value::Finite { num: 251, den: 1 })
    );
}

#[test]
fn tests_test_eval() {
    assert_eq!(eval("(+ 9 0)"), whole(9));
    assert_eq!(eval("(+ 4 1)"), whole(5));
    assert_eq!(eval("(+ 321 48)"), whole(369));

    assert_eq!(eval("(* 4 6)"), whole(24));
    assert_eq!(eval("(* 24 10)"), whole(240));

    assert_eq!(eval("(+ (* 23 11) (* 2 (+ 3 4)))"), whole(267));
}

#[test]
fn main_test_eval() {
    let table = FnTable::builtin();
    let bin = |op: &str, a: u8, b: u8| {
        let e = call(op, vec![int_expr(&[a]), int_expr(&[b])]);
        eval_expr(&e, &table)
    };
    assert_eq!(bin("+", 9, 0), Ok(Value::Finite { num: 9, den: 1 }));
    assert_eq!(bin("+", 4, 1), Ok(Value::Finite { num: 5, den: 1 }));
    assert_eq!(bin("+", 3, 5), Ok(Value::Finite { num: 8, den: 1 }));

    assert_eq!(bin("*", 4, 1), Ok(Value::Finite { num: 4, den: 1 }));
    assert_eq!(bin("*", 3, 5), Ok(Value::Finite { num: 15, den: 1 }));
    assert_eq!(bin("*", 9, 0), Ok(Value::Finite { num: 0, den: 1 }));
}

#[test]
fn test_eval_addition_exact() {
    // non-negative whole numbers add exactly
    assert_eq!(eval("(+ 2 3)"), whole(5));
    assert_eq!(eval("(+ 0 0)"), whole(0));
    assert_eq!(eval("(+ 4503599627370496 4503599627370496)"), whole(9007199254740992));
}

#[test]
fn test_eval_mul_sub_exact() {
    assert_eq!(eval("(* 7 6)"), whole(42));
    assert_eq!(eval("(- 3 4)"), whole(-1));
    assert_eq!(eval("(- 10 3)"), whole(7));
}

#[test]
fn test_eval_nesting_composes() {
    assert_eq!(eval("(+ (* 23 11) (* 2 (- 3 4)))"), whole(251));
}

#[test]
fn test_eval_fold_conventions() {
    // + folds from zero, * from one, - and / from their first argument
    assert_eq!(eval("(+)"), whole(0));
    assert_eq!(eval("(+ 5)"), whole(5));
    assert_eq!(eval("(*)"), whole(1));
    assert_eq!(eval("(-)"), whole(0));
    assert_eq!(eval("(- 5)"), whole(5));
    assert_eq!(eval("(- 10 3 2)"), whole(5));
    assert_eq!(eval("(/)"), whole(0));
    assert_eq!(eval("(/ 5)"), whole(5));
}

#[test]
fn test_eval_division_is_exact() {
    assert_eq!(eval("(/ 98 4)"), Ok(Value::Finite { num: 98, den: 4 }));
    assert_eq!(eval("(/ 1 3)"), Ok(Value::Finite { num: 1, den: 3 }));
    assert_eq!(eval("(/ 6 -3)"), Ok(Value::Finite { num: -6, den: 3 }));
}

#[test]
fn test_eval_division_by_zero_is_numeric() {
    // division by zero is a value, not an error
    assert_eq!(eval("(/ 1 0)"), Ok(Value::Infinite { negative: false }));
    assert_eq!(eval("(/ -1 0)"), Ok(Value::Infinite { negative: true }));
    assert_eq!(eval("(/ 0 0)"), Ok(Value::Undefined));
    assert_eq!(eval("(+ 1 (/ 1 0))"), Ok(Value::Infinite { negative: false }));
    assert_eq!(eval("(- (/ 1 0) (/ 1 0))"), Ok(Value::Undefined));
}

#[test]
fn test_eval_unknown_operator() {
    assert_eq!(
        eval("(foo 1 2)"),
        Err(CalcError::Eval(EvalError::UnknownOperator(String::from("foo"))))
    );
    // yet the same text parses successfully
    assert!(Parser::new("(foo 1 2)").parse_expression().is_ok());
}

#[test]
fn test_eval_syntax_error_is_reported() {
    assert_eq!(eval("(+ 1 2"), Err(CalcError::Syntax(ParseError::UnterminatedCall)));
    assert_eq!(eval(""), Err(CalcError::Syntax(ParseError::UnexpectedEndOfInput)));
}

#[test]
fn test_eval_value_out_of_range() {
    // one past the largest representable whole number
    assert_eq!(
        eval("(+ 9223372036854775808 0)"),
        Err(CalcError::Eval(EvalError::ValueOutOfRange))
    );
    // nineteen fractional digits no longer fit the denominator
    assert_eq!(
        eval("(+ 0.0000000000000000001 0)"),
        Err(CalcError::Eval(EvalError::ValueOutOfRange))
    );
}

#[test]
fn test_eval_fractions_are_exact_decimals() {
    assert_eq!(eval("1.5"), Ok(Value::Finite { num: 15, den: 10 }));
    assert_eq!(eval("(+ 1.5 2.25)"), Ok(Value::Finite { num: 3750, den: 1000 }));
    assert_eq!(eval("-0"), whole(0));
}

#[test]
fn test_eval_constants_ignore_arguments() {
    let pi = Value::Finite { num: 884279719003555, den: 281474976710656 };
    let e = Value::Finite { num: 6121026514868073, den: 2251799813685248 };
    assert_eq!(eval("(pi)"), Ok(pi));
    assert_eq!(eval("(pi 1 2)"), Ok(pi));
    assert_eq!(eval("(e)"), Ok(e));
}

#[test]
fn test_table_register_and_shadow() {
    let mut table = FnTable::new();
    table.register(String::from("answer"), Reducer::Constant(Value::Finite { num: 42, den: 1 }));
    let e = call("answer", Vec::new());
    assert_eq!(eval_expr(&e, &table), Ok(Value::Finite { num: 42, den: 1 }));

    // a later registration shadows the earlier one
    table.register(String::from("answer"), Reducer::Sum);
    assert_eq!(eval_expr(&e, &table), Ok(Value::Finite { num: 0, den: 1 }));

    // and nothing else is defined
    assert_eq!(
        eval_expr(&call("+", Vec::new()), &table),
        Err(EvalError::UnknownOperator(String::from("+")))
    );
}

#[test]
fn test_eval_arguments_left_to_right() {
    // the first failing argument's error surfaces
    assert_eq!(
        eval("(+ (foo) (bar))"),
        Err(CalcError::Eval(EvalError::UnknownOperator(String::from("foo"))))
    );
}

#[test]
fn test_value_arithmetic_directly() {
    let a = Value::Finite { num: 1, den: 2 };
    let b = Value::Finite { num: 1, den: 3 };
    assert_eq!(a.add(b), Some(Value::Finite { num: 5, den: 6 }));
    assert_eq!(a.sub(b), Some(Value::Finite { num: 1, den: 6 }));
    assert_eq!(a.mul(b), Some(Value::Finite { num: 1, den: 6 }));
    assert_eq!(a.div(b), Some(Value::Finite { num: 3, den: 2 }));
    // an exact result past the machine word is out of range, not rounded
    let big = Value::Finite { num: i64::MAX, den: 1 };
    assert_eq!(big.mul(big), None);
    assert_eq!(Value::integer(7), Value::Finite { num: 7, den: 1 });
}
