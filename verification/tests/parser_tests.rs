use tachyon::lexer::Token;
use tachyon::numeral::Numeral;
use tachyon::parser::{Expr, FnExpr, Identifier, ParseError, Parser};

fn int_expr(digits: &[u8]) -> Expr {
    Expr::Number(Numeral { negative: false, int_digits: digits.to_vec(), frac_digits: Vec::new() })
}

fn call(op: &str, args: Vec<Expr>) -> Expr {
    Expr::FnExprPtr(Box::new(FnExpr { op: Identifier(String::from(op)), args }))
}

#[test]
fn ast() {
    // the call of * is never closed: the parse fails rather than panicking
    let r = Parser::new("(+ (sqr 7) 1 (* 5.64 ").parse_expression();
    assert_eq!(r, Err(ParseError::UnterminatedCall));
}

#[test]
fn test_parser_binary_expressions() {
    // a bare identifier cannot begin an expression
    assert_eq!(
        Parser::new("+ 1 2").parse_expression(),
        Err(ParseError::UnexpectedToken { found: Token::Identifier(String::from("+")) })
    );
    assert_eq!(
        Parser::new("* 345 478").parse_expression(),
        Err(ParseError::UnexpectedToken { found: Token::Identifier(String::from("*")) })
    );
}

#[test]
fn tests_test_parser_expressions() {
    let expr = Parser::new("1").parse_expression();
    assert_eq!(expr, Ok(int_expr(&[1])));

    let expr = Parser::new("(+ 1 2)").parse_expression();
    assert_eq!(expr, Ok(call("+", vec![int_expr(&[1]), int_expr(&[2])])));

    let expr = Parser::new("(* (+ 123 565) (* (+ 12 3) 134))").parse_expression();
    assert_eq!(
        expr,
        Ok(call(
            "*",
            vec![
                call("+", vec![int_expr(&[1, 2, 3]), int_expr(&[5, 6, 5])]),
                call(
                    "*",
                    vec![
                        call("+", vec![int_expr(&[1, 2]), int_expr(&[3])]),
                        int_expr(&[1, 3, 4]),
                    ],
                ),
            ],
        ))
    );
}

#[test]
fn main_test_parser_expressions() {
    let e = Parser::new("(+ 1 2)").parse_expression();
    assert_eq!(e, Ok(call("+", vec![int_expr(&[1]), int_expr(&[2])])));

    let e = Parser::new("(* 3 4)").parse_expression();
    assert_eq!(e, Ok(call("*", vec![int_expr(&[3]), int_expr(&[4])])));
}

#[test]
fn test_parser_zero_argument_call() {
    // zero-argument calls are legal: (pi) is a call with an empty argument list
    let e = Parser::new("(pi)").parse_expression();
    assert_eq!(e, Ok(call("pi", Vec::new())));
}

#[test]
fn test_parser_unterminated_call() {
    // missing closing parenthesis is reported, not panicked on
    let e = Parser::new("(+ 1 2").parse_expression();
    assert_eq!(e, Err(ParseError::UnterminatedCall));
}

#[test]
fn test_parser_empty_input() {
    assert_eq!(Parser::new("").parse_expression(), Err(ParseError::UnexpectedEndOfInput));
    assert_eq!(Parser::new("   ").parse_expression(), Err(ParseError::UnexpectedEndOfInput));
}

#[test]
fn test_parser_stray_close_paren() {
    assert_eq!(
        Parser::new(")").parse_expression(),
        Err(ParseError::UnexpectedToken { found: Token::CloseParenthesis })
    );
}

#[test]
fn test_parser_operator_must_be_identifier() {
    let e = Parser::new("(1 2)").parse_expression();
    assert_eq!(
        e,
        Err(ParseError::ExpectedIdentifier {
            found: Token::Number(Numeral {
                negative: false,
                int_digits: vec![1],
                frac_digits: Vec::new(),
            }),
        })
    );
    let e = Parser::new("(()").parse_expression();
    assert_eq!(e, Err(ParseError::ExpectedIdentifier { found: Token::OpenParenthesis }));
}

#[test]
fn test_parser_whitespace_insensitive() {
    // the same token sequence parses to the identical tree however the
    // whitespace lies
    let a = Parser::new("(+ 1 2)").parse_expression();
    let b = Parser::new("(+1 2)").parse_expression();
    let c = Parser::new("( +  1   2 )").parse_expression();
    assert_eq!(a, Ok(call("+", vec![int_expr(&[1]), int_expr(&[2])])));
    assert_eq!(b, a);
    assert_eq!(c, a);
}

#[test]
fn test_parser_stops_after_one_form() {
    // the parser builds exactly one top-level form and leaves the rest
    let mut p = Parser::new("(+ 1 2) (junk");
    assert_eq!(p.parse_expression(), Ok(call("+", vec![int_expr(&[1]), int_expr(&[2])])));
}

#[test]
fn test_round_trip_canonical_text() {
    // parse, serialize, re-parse: the tree is structurally identical
    let source = "( +  (* 23 11)   (* 2 (- 3 4)) )";
    let e1 = Parser::new(source).parse_expression().unwrap();
    let text = e1.to_canonical_text();
    assert_eq!(text, "(+ (* 23 11) (* 2 (- 3 4)))");
    let e2 = Parser::new(&text).parse_expression().unwrap();
    assert_eq!(e1, e2);
}

#[test]
fn test_round_trip_numerals_and_zero_args() {
    let source = "(f -12.50 (pi) 0.07)";
    let e1 = Parser::new(source).parse_expression().unwrap();
    let text = e1.to_canonical_text();
    assert_eq!(text, "(f -12.50 (pi) 0.07)");
    let e2 = Parser::new(&text).parse_expression().unwrap();
    assert_eq!(e1, e2);
}
