use tachyon::lexer::{Lexer, Token};
use tachyon::numeral::Numeral;

fn numeral(negative: bool, int_digits: &[u8], frac_digits: &[u8]) -> Numeral {
    Numeral { negative, int_digits: int_digits.to_vec(), frac_digits: frac_digits.to_vec() }
}

fn ident(name: &str) -> Token {
    Token::Identifier(String::from(name))
}

fn assert_tokens_eq(lexer: &mut Lexer, tokens: &[Token]) {
    for t in tokens {
        assert_eq!(lexer.next_token(), Some(t.clone()));
    }
    assert_eq!(lexer.next_token(), None);
    // exhausted stays exhausted
    assert_eq!(lexer.next_token(), None);
}

#[test]
fn test_lexer_singletons() {
    // contiguous non-whitespace operator characters form one identifier run
    assert_tokens_eq(
        &mut Lexer::new("+-*/()"),
        &[ident("+-*/"), Token::OpenParenthesis, Token::CloseParenthesis],
    );
}

#[test]
fn test_lexer_unknown_characters() {
    // there is no unknown-character token: any such run is an identifier
    assert_tokens_eq(&mut Lexer::new("a$#~`"), &[ident("a$#~`")]);
}

#[test]
fn test_lexer_numbers() {
    assert_eq!(
        Lexer::new("1234567890").next_token(),
        Some(Token::Number(numeral(false, &[1, 2, 3, 4, 5, 6, 7, 8, 9, 0], &[])))
    );
    assert_eq!(
        Lexer::new("456456.5565").next_token(),
        Some(Token::Number(numeral(false, &[4, 5, 6, 4, 5, 6], &[5, 5, 6, 5])))
    );
    assert_eq!(
        Lexer::new("-123132").next_token(),
        Some(Token::Number(numeral(true, &[1, 2, 3, 1, 3, 2], &[])))
    );
}

#[test]
fn test_lexer_with_spaces() {
    assert_tokens_eq(
        &mut Lexer::new(" \t\r\n ( 123 456.112 - 789 -789"),
        &[
            Token::OpenParenthesis,
            Token::Number(numeral(false, &[1, 2, 3], &[])),
            Token::Number(numeral(false, &[4, 5, 6], &[1, 1, 2])),
            ident("-"),
            Token::Number(numeral(false, &[7, 8, 9], &[])),
            Token::Number(numeral(true, &[7, 8, 9], &[])),
        ],
    );
}

#[test]
fn test_lexer_expressions() {
    assert_tokens_eq(
        &mut Lexer::new("(+ 123 -245)"),
        &[
            Token::OpenParenthesis,
            ident("+"),
            Token::Number(numeral(false, &[1, 2, 3], &[])),
            Token::Number(numeral(true, &[2, 4, 5], &[])),
            Token::CloseParenthesis,
        ],
    );

    assert_tokens_eq(
        &mut Lexer::new("(* 398.489 4788)"),
        &[
            Token::OpenParenthesis,
            ident("*"),
            Token::Number(numeral(false, &[3, 9, 8], &[4, 8, 9])),
            Token::Number(numeral(false, &[4, 7, 8, 8], &[])),
            Token::CloseParenthesis,
        ],
    );

    assert_tokens_eq(
        &mut Lexer::new("(- (/ 98 4) 788)"),
        &[
            Token::OpenParenthesis,
            ident("-"),
            Token::OpenParenthesis,
            ident("/"),
            Token::Number(numeral(false, &[9, 8], &[])),
            Token::Number(numeral(false, &[4], &[])),
            Token::CloseParenthesis,
            Token::Number(numeral(false, &[7, 8, 8], &[])),
            Token::CloseParenthesis,
        ],
    );
}

#[test]
fn tests_test_lexer_integers() {
    let mut rdr = Lexer::new("1234567890");
    assert_eq!(
        rdr.next_token(),
        Some(Token::Number(numeral(false, &[1, 2, 3, 4, 5, 6, 7, 8, 9, 0], &[])))
    );
}

#[test]
fn tests_test_lexer_singletons() {
    assert_eq!(Lexer::new("+").next_token(), Some(ident("+")));
    assert_eq!(Lexer::new("-").next_token(), Some(ident("-")));
    assert_eq!(Lexer::new("*").next_token(), Some(ident("*")));
    assert_eq!(Lexer::new("/").next_token(), Some(ident("/")));
    assert_eq!(Lexer::new("(").next_token(), Some(Token::OpenParenthesis));
    assert_eq!(Lexer::new(")").next_token(), Some(Token::CloseParenthesis));
    // whitespace is skipped, never a token of its own
    assert_eq!(Lexer::new(" ").next_token(), None);
}

#[test]
fn tests_test_lexer_unknown_characters() {
    // every character scans; these are identifiers, not failures
    assert_eq!(Lexer::new("a").next_token(), Some(ident("a")));
    assert_eq!(Lexer::new("$").next_token(), Some(ident("$")));
}

#[test]
fn tests_test_lexer_expressions() {
    assert_tokens_eq(
        &mut Lexer::new("(+ 123 245)"),
        &[
            Token::OpenParenthesis,
            ident("+"),
            Token::Number(numeral(false, &[1, 2, 3], &[])),
            Token::Number(numeral(false, &[2, 4, 5], &[])),
            Token::CloseParenthesis,
        ],
    );

    assert_tokens_eq(
        &mut Lexer::new("(* 398 4788)"),
        &[
            Token::OpenParenthesis,
            ident("*"),
            Token::Number(numeral(false, &[3, 9, 8], &[])),
            Token::Number(numeral(false, &[4, 7, 8, 8], &[])),
            Token::CloseParenthesis,
        ],
    );

    assert_tokens_eq(
        &mut Lexer::new("(- (+ 98 4) 788)"),
        &[
            Token::OpenParenthesis,
            ident("-"),
            Token::OpenParenthesis,
            ident("+"),
            Token::Number(numeral(false, &[9, 8], &[])),
            Token::Number(numeral(false, &[4], &[])),
            Token::CloseParenthesis,
            Token::Number(numeral(false, &[7, 8, 8], &[])),
            Token::CloseParenthesis,
        ],
    );
}

#[test]
fn main_test_lexer_integers() {
    let mut rdr = Lexer::new("1234567890");
    assert_eq!(
        rdr.next_token(),
        Some(Token::Number(numeral(false, &[1, 2, 3, 4, 5, 6, 7, 8, 9, 0], &[])))
    );
}

#[test]
fn main_test_lexer_singletons() {
    assert_eq!(Lexer::new("+").next_token(), Some(ident("+")));
    assert_eq!(Lexer::new("*").next_token(), Some(ident("*")));
    assert_eq!(Lexer::new("(").next_token(), Some(Token::OpenParenthesis));
    assert_eq!(Lexer::new(")").next_token(), Some(Token::CloseParenthesis));
    assert_eq!(Lexer::new(" ").next_token(), None);
}

#[test]
fn main_test_lexer_unknown_characters() {
    assert_eq!(Lexer::new("a").next_token(), Some(ident("a")));
    assert_eq!(Lexer::new("$").next_token(), Some(ident("$")));
}

#[test]
fn main_test_lexer_expressions() {
    assert_tokens_eq(
        &mut Lexer::new("(+ 123 245)"),
        &[
            Token::OpenParenthesis,
            ident("+"),
            Token::Number(numeral(false, &[1, 2, 3], &[])),
            Token::Number(numeral(false, &[2, 4, 5], &[])),
            Token::CloseParenthesis,
        ],
    );

    assert_tokens_eq(
        &mut Lexer::new("(* 398 4788)"),
        &[
            Token::OpenParenthesis,
            ident("*"),
            Token::Number(numeral(false, &[3, 9, 8], &[])),
            Token::Number(numeral(false, &[4, 7, 8, 8], &[])),
            Token::CloseParenthesis,
        ],
    );
}

#[test]
fn test_lexer_lone_minus_at_end() {
    // a minus not followed by a digit is the identifier "-", even at the end
    assert_tokens_eq(&mut Lexer::new("-"), &[ident("-")]);
    assert_tokens_eq(&mut Lexer::new("1 -"), &[Token::Number(numeral(false, &[1], &[])), ident("-")]);
}

#[test]
fn test_lexer_identifier_stops_at_digit_and_paren() {
    // digits and parentheses end an identifier run
    assert_tokens_eq(
        &mut Lexer::new("sqr2(pi)"),
        &[
            ident("sqr"),
            Token::Number(numeral(false, &[2], &[])),
            Token::OpenParenthesis,
            ident("pi"),
            Token::CloseParenthesis,
        ],
    );
}

#[test]
fn test_lexer_empty_input() {
    assert_tokens_eq(&mut Lexer::new(""), &[]);
}

#[test]
fn test_lexer_trailing_point() {
    // a point right after the integer digits is consumed even with no
    // fractional digits after it
    assert_tokens_eq(
        &mut Lexer::new("1. 2"),
        &[
            Token::Number(numeral(false, &[1], &[])),
            Token::Number(numeral(false, &[2], &[])),
        ],
    );
}
