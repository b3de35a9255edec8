//! The parser: builds exactly one expression from the token stream,
//! pulling tokens from the scanner one at a time. The grammar is
//! fully-parenthesized prefix notation:
//!
//! ```text
//! expression := NUMBER | '(' call ')'
//! call       := IDENTIFIER expression*
//! ```
//!
//! The parser keeps an explicit stack of open calls instead of recursing,
//! so nesting depth cannot exhaust the call stack; the spec machine
//! `parse_toks` consumes one or two tokens per step and is the exact model
//! of what the parser builds and which error it reports.

use vstd::prelude::*;

use crate::lexer::{
    is_ident_char, lemma_scan_token_advances, scan_token, tokens_from, Lexer, SpecToken, Token,
};
use crate::numeral::{wf_numeral, Numeral, SpecNumeral};

verus! {

/// Wrapper over the identifier token's text, for better type checking.
#[derive(Debug, PartialEq, Clone)]
pub struct Identifier(pub String);

impl View for Identifier {
    type V = Seq<char>;

    open spec fn view(&self) -> Seq<char> {
        self.0@
    }
}

/// A call form: an operator name applied to zero or more argument
/// expressions, in order.
#[derive(Debug, PartialEq)]
pub struct FnExpr {
    pub op: Identifier,
    pub args: Vec<Expr>,
}

/// An expression tree: a number literal, or a call that exclusively owns
/// its argument subtrees.
#[derive(Debug, PartialEq)]
pub enum Expr {
    Number(Numeral),
    FnExprPtr(Box<FnExpr>),
}

/// The mathematical content of an `Expr`.
pub enum SpecExpr {
    Number(SpecNumeral),
    Call { op: Seq<char>, args: Seq<SpecExpr> },
}

/// The mathematical content of an expression tree.
pub open spec fn view_expr(e: Expr) -> SpecExpr
    decreases e,
{
    match e {
        Expr::Number(n) => SpecExpr::Number(n@),
        Expr::FnExprPtr(f) => SpecExpr::Call { op: f.op@, args: view_exprs(f.args@) },
    }
}

/// The mathematical content of a sequence of expression trees.
pub open spec fn view_exprs(es: Seq<Expr>) -> Seq<SpecExpr>
    decreases es,
{
    if es.len() == 0 {
        Seq::empty()
    } else {
        seq![view_expr(es[0])] + view_exprs(es.drop_first())
    }
}

impl View for Expr {
    type V = SpecExpr;

    open spec fn view(&self) -> SpecExpr {
        view_expr(*self)
    }
}

impl View for FnExpr {
    type V = SpecExpr;

    open spec fn view(&self) -> SpecExpr {
        SpecExpr::Call { op: self.op@, args: view_exprs(self.args@) }
    }
}

/// `view_exprs` maps the sequence element by element.
pub proof fn lemma_view_exprs(es: Seq<Expr>)
    ensures
        view_exprs(es).len() == es.len(),
        forall|k: int| 0 <= k < es.len() ==> view_exprs(es)[k] == view_expr(es[k]),
    decreases es,
{
    if es.len() > 0 {
        lemma_view_exprs(es.drop_first());
    }
}

/// Appending a tree appends its view.
pub proof fn lemma_view_exprs_push(es: Seq<Expr>, e: Expr)
    ensures
        view_exprs(es.push(e)) == view_exprs(es).push(view_expr(e)),
    decreases es,
{
    assert(es.push(e)[0] == if es.len() == 0 {
        e
    } else {
        es[0]
    });
    if es.len() == 0 {
        assert(es.push(e).drop_first() =~= Seq::<Expr>::empty());
        assert(view_exprs(Seq::<Expr>::empty()) == Seq::<SpecExpr>::empty());
        assert(view_exprs(es.push(e)) == seq![view_expr(e)] + Seq::<SpecExpr>::empty());
        assert(view_exprs(es.push(e)) =~= view_exprs(es).push(view_expr(e)));
    } else {
        lemma_view_exprs_push(es.drop_first(), e);
        assert(es.push(e).drop_first() =~= es.drop_first().push(e));
        assert(view_exprs(es.push(e)) == seq![view_expr(es[0])] + view_exprs(
            es.drop_first().push(e),
        ));
        assert(view_exprs(es.push(e)) =~= view_exprs(es).push(view_expr(e)));
    }
}

/// The size of a tree: one for each node. A recursion over a tree
/// terminates because each subtree is smaller.
pub open spec fn size(e: SpecExpr) -> nat
    decreases e,
{
    match e {
        SpecExpr::Number(_) => 1,
        SpecExpr::Call { op, args } => 1 + size_all(args),
    }
}

pub open spec fn size_all(es: Seq<SpecExpr>) -> nat
    decreases es,
{
    if es.len() == 0 {
        0
    } else {
        size(es[0]) + size_all(es.drop_first())
    }
}

/// No element of a sequence of trees outweighs the whole sequence.
pub proof fn lemma_size_all_ge(es: Seq<SpecExpr>, k: int)
    requires
        0 <= k < es.len(),
    ensures
        size(es[k]) <= size_all(es),
    decreases k,
{
    if k == 0 {
    } else {
        lemma_size_all_ge(es.drop_first(), k - 1);
    }
}

/// An identifier the scanner can produce: non-empty, made of identifier
/// characters only, and beginning with `-` only as the lone `-` itself.
pub open spec fn scannable_ident(name: Seq<char>) -> bool {
    &&& name.len() >= 1
    &&& (forall|k: int| 0 <= k < name.len() ==> is_ident_char(name[k]))
    &&& (name[0] == '-' ==> name.len() == 1)
}

/// A token the scanner can produce: its numeral is well formed, its
/// identifier scannable.
pub open spec fn wf_token(t: SpecToken) -> bool {
    match t {
        SpecToken::Number(n) => wf_numeral(n),
        SpecToken::Identifier(name) => scannable_ident(name),
        SpecToken::OpenParenthesis => true,
        SpecToken::CloseParenthesis => true,
    }
}

/// A tree the parser can produce: every literal is a well-formed numeral
/// and every operator name is one the scanner can produce.
pub open spec fn wf_expr(e: SpecExpr) -> bool
    decreases e,
{
    match e {
        SpecExpr::Number(n) => wf_numeral(n),
        SpecExpr::Call { op, args } => scannable_ident(op) && wf_exprs(args),
    }
}

pub open spec fn wf_exprs(es: Seq<SpecExpr>) -> bool
    decreases es,
{
    if es.len() == 0 {
        true
    } else {
        wf_expr(es[0]) && wf_exprs(es.drop_first())
    }
}

/// A syntax error: which token class was required and what was found.
#[derive(Debug, PartialEq, Clone)]
pub enum ParseError {
    /// The text ended where an expression was required.
    UnexpectedEndOfInput,
    /// The text ended while a call's argument list was still open.
    UnterminatedCall,
    /// The token after `(` was not an identifier.
    ExpectedIdentifier { found: Token },
    /// A token that cannot begin an expression stood where one was
    /// required: a bare identifier, or a stray `)`.
    UnexpectedToken { found: Token },
}

/// The mathematical content of a `ParseError`.
pub enum SpecParseError {
    UnexpectedEndOfInput,
    UnterminatedCall,
    ExpectedIdentifier { found: SpecToken },
    UnexpectedToken { found: SpecToken },
}

impl View for ParseError {
    type V = SpecParseError;

    open spec fn view(&self) -> SpecParseError {
        match self {
            ParseError::UnexpectedEndOfInput => SpecParseError::UnexpectedEndOfInput,
            ParseError::UnterminatedCall => SpecParseError::UnterminatedCall,
            ParseError::ExpectedIdentifier { found } => SpecParseError::ExpectedIdentifier {
                found: found@,
            },
            ParseError::UnexpectedToken { found } => SpecParseError::UnexpectedToken {
                found: found@,
            },
        }
    }
}

/// An open call on the parse stack: the operator name and the arguments
/// parsed so far.
pub open spec fn push_arg(
    stack: Seq<(Seq<char>, Seq<SpecExpr>)>,
    e: SpecExpr,
) -> Seq<(Seq<char>, Seq<SpecExpr>)>
    recommends
        stack.len() >= 1,
{
    stack.update(stack.len() - 1, (stack.last().0, stack.last().1.push(e)))
}

/// The parse machine: consumes tokens from the front, keeping a stack of
/// open calls. A number becomes a leaf; `(` must be followed by an
/// identifier and opens a call; `)` closes the innermost open call. A
/// finished expression is the result when no call is open, and otherwise
/// becomes the next argument of the innermost one. The result carries the
/// tokens left over after the one parsed expression.
pub open spec fn parse_toks(toks: Seq<SpecToken>, stack: Seq<(Seq<char>, Seq<SpecExpr>)>) -> Result<
    (SpecExpr, Seq<SpecToken>),
    SpecParseError,
>
    decreases toks.len(),
{
    if toks.len() == 0 {
        Err(
            if stack.len() == 0 {
                SpecParseError::UnexpectedEndOfInput
            } else {
                SpecParseError::UnterminatedCall
            },
        )
    } else {
        match toks[0] {
            SpecToken::Number(n) => {
                let e = SpecExpr::Number(n);
                if stack.len() == 0 {
                    Ok((e, toks.drop_first()))
                } else {
                    parse_toks(toks.drop_first(), push_arg(stack, e))
                }
            },
            SpecToken::OpenParenthesis => {
                if toks.len() == 1 {
                    Err(SpecParseError::UnterminatedCall)
                } else {
                    match toks[1] {
                        SpecToken::Identifier(op) => parse_toks(
                            toks.skip(2),
                            stack.push((op, Seq::empty())),
                        ),
                        found => Err(SpecParseError::ExpectedIdentifier { found }),
                    }
                }
            },
            SpecToken::CloseParenthesis => {
                if stack.len() == 0 {
                    Err(
                        SpecParseError::UnexpectedToken {
                            found: SpecToken::CloseParenthesis,
                        },
                    )
                } else {
                    let e = SpecExpr::Call { op: stack.last().0, args: stack.last().1 };
                    if stack.len() == 1 {
                        Ok((e, toks.drop_first()))
                    } else {
                        parse_toks(toks.drop_first(), push_arg(stack.drop_last(), e))
                    }
                }
            },
            SpecToken::Identifier(name) => Err(
                SpecParseError::UnexpectedToken { found: SpecToken::Identifier(name) },
            ),
        }
    }
}

/// Parsing one expression from the front of the text.
pub open spec fn spec_parse(s: Seq<char>) -> Result<(SpecExpr, Seq<SpecToken>), SpecParseError> {
    parse_toks(tokens_from(s, 0), Seq::empty())
}

/// Whitespace-insensitivity: parsing reads nothing of the text but its
/// token sequence, so two texts that scan to the same tokens parse to the
/// identical tree — or to the identical error.
pub proof fn lemma_parse_depends_on_tokens(s1: Seq<char>, s2: Seq<char>)
    requires
        tokens_from(s1, 0) == tokens_from(s2, 0),
    ensures
        spec_parse(s1) == spec_parse(s2),
{
}

/// An open call while parsing.
struct Frame {
    op: Identifier,
    args: Vec<Expr>,
}

spec fn frame_view(f: Frame) -> (Seq<char>, Seq<SpecExpr>) {
    (f.op@, view_exprs(f.args@))
}

spec fn view_frames(fs: Seq<Frame>) -> Seq<(Seq<char>, Seq<SpecExpr>)> {
    Seq::new(fs.len(), |i: int| frame_view(fs[i]))
}

/// The parser, driving its scanner one token at a time.
pub struct Parser {
    pub lexer: Lexer,
}

impl Parser {
    /// The characters being parsed.
    pub open spec fn chars(&self) -> Seq<char> {
        self.lexer.chars()
    }

    /// The position of the next character to scan.
    pub open spec fn position(&self) -> int {
        self.lexer.position()
    }

    pub open spec fn wf(&self) -> bool {
        self.lexer.wf()
    }

    pub fn new(source: &str) -> (p: Parser)
        ensures
            p.wf(),
            p.chars() == source@,
            p.position() == 0,
    {
        Parser { lexer: Lexer::new(source) }
    }

    /// Pulls one token and requires it to be an identifier. The text
    /// ending here means a call was left open.
    fn expect_identifier(&mut self) -> (r: Result<Identifier, ParseError>)
        requires
            old(self).wf(),
        ensures
            final(self).wf(),
            final(self).chars() == old(self).chars(),
            scan_token(old(self).chars(), old(self).position()) is None ==> r == Err::<
                Identifier,
                ParseError,
            >(ParseError::UnterminatedCall),
            scan_token(old(self).chars(), old(self).position()) matches Some((st, j)) ==> {
                &&& final(self).position() == j
                &&& (st matches SpecToken::Identifier(name) ==> (r matches Ok(id) && id@ == name))
                &&& (!(st is Identifier) ==> (r matches Err(e) && e@
                    == SpecParseError::ExpectedIdentifier { found: st }))
            },
    {
        match self.lexer.next_token() {
            None => Err(ParseError::UnterminatedCall),
            Some(Token::Identifier(name)) => Ok(Identifier(name)),
            Some(other) => Err(ParseError::ExpectedIdentifier { found: other }),
        }
    }

    /// Parses exactly one expression from the current position, leaving
    /// the scanner just past it. The result — the tree built or the error
    /// reported — is exactly what the parse machine says of the remaining
    /// token stream, and on success the tokens after the expression are
    /// left unread.
    pub fn parse_expression(&mut self) -> (r: Result<Expr, ParseError>)
        requires
            old(self).wf(),
        ensures
            final(self).wf(),
            final(self).chars() == old(self).chars(),
            parse_toks(tokens_from(old(self).chars(), old(self).position()), Seq::empty())
                matches Ok((e, rest)) ==> {
                &&& r matches Ok(expr) && expr@ == e
                &&& tokens_from(final(self).chars(), final(self).position()) == rest
            },
            parse_toks(tokens_from(old(self).chars(), old(self).position()), Seq::empty())
                matches Err(pe) ==> r matches Err(err) && err@ == pe,
    {
        let ghost s = old(self).chars();
        let ghost full = tokens_from(s, old(self).position());
        let mut stack: Vec<Frame> = Vec::new();
        proof {
            assert(view_frames(stack@) =~= Seq::<(Seq<char>, Seq<SpecExpr>)>::empty());
        }
        loop
            invariant
                s == old(self).chars(),
                full == tokens_from(s, old(self).position()),
                self.wf(),
                self.chars() == s,
                0 <= self.position() <= s.len(),
                parse_toks(tokens_from(s, self.position()), view_frames(stack@)) == parse_toks(
                    full,
                    Seq::empty(),
                ),
            decreases s.len() - self.position(),
        {
            let ghost pos0 = self.position();
            let ghost toks = tokens_from(s, pos0);
            proof {
                lemma_scan_token_advances(s, pos0);
            }
            match self.lexer.next_token() {
                None => {
                    proof {
                        assert(toks =~= Seq::<SpecToken>::empty());
                    }
                    if stack.len() == 0 {
                        proof {
                            assert(view_frames(stack@).len() == 0);
                        }
                        return Err(ParseError::UnexpectedEndOfInput);
                    } else {
                        proof {
                            assert(view_frames(stack@).len() == stack@.len());
                        }
                        return Err(ParseError::UnterminatedCall);
                    }
                },
                Some(tok) => {
                    proof {
                        assert(toks =~= seq![tok@] + tokens_from(s, self.position()));
                    }
                    match tok {
                        Token::Number(num) => {
                            let e = Expr::Number(num);
                            proof {
                                assert(toks[0] == SpecToken::Number(num@));
                                assert(toks.drop_first() =~= tokens_from(s, self.position()));
                            }
                            if stack.len() == 0 {
                                proof {
                                    assert(view_frames(stack@).len() == 0);
                                }
                                return Ok(e);
                            }
                            let ghost frames0 = view_frames(stack@);
                            let mut fr = stack.pop().unwrap();
                            let ghost old_args = fr.args@;
                            fr.args.push(e);
                            stack.push(fr);
                            proof {
                                lemma_view_exprs_push(old_args, e);
                                assert(view_frames(stack@) =~= push_arg(frames0, view_expr(e)));
                            }
                        },
                        Token::OpenParenthesis => {
                            proof {
                                assert(toks[0] == SpecToken::OpenParenthesis);
                            }
                            let ghost pos1 = self.position();
                            let ghost toks1 = tokens_from(s, pos1);
                            proof {
                                lemma_scan_token_advances(s, pos1);
                            }
                            let ghost frames0 = view_frames(stack@);
                            match self.expect_identifier() {
                                Ok(op) => {
                                    proof {
                                        assert(toks1 =~= seq![toks[1]] + tokens_from(
                                            s,
                                            self.position(),
                                        ));
                                        assert(toks.skip(2) =~= tokens_from(s, self.position()));
                                    }
                                    stack.push(Frame { op, args: Vec::new() });
                                    proof {
                                        assert(view_exprs(Seq::<Expr>::empty())
                                            =~= Seq::<SpecExpr>::empty());
                                        assert(view_frames(stack@) =~= frames0.push(
                                            (toks[1]->Identifier_0, Seq::empty()),
                                        ));
                                    }
                                },
                                Err(e) => {
                                    proof {
                                        if scan_token(s, pos1) is Some {
                                            assert(toks1 =~= seq![toks[1]] + tokens_from(
                                                s,
                                                self.position(),
                                            ));
                                        } else {
                                            assert(toks1 =~= Seq::<SpecToken>::empty());
                                            assert(toks.len() == 1);
                                        }
                                    }
                                    return Err(e);
                                },
                            }
                        },
                        Token::CloseParenthesis => {
                            proof {
                                assert(toks[0] == SpecToken::CloseParenthesis);
                                assert(toks.drop_first() =~= tokens_from(s, self.position()));
                            }
                            if stack.len() == 0 {
                                proof {
                                    assert(view_frames(stack@).len() == 0);
                                }
                                return Err(
                                    ParseError::UnexpectedToken {
                                        found: Token::CloseParenthesis,
                                    },
                                );
                            }
                            let ghost frames0 = view_frames(stack@);
                            let fr = stack.pop().unwrap();
                            let e = Expr::FnExprPtr(Box::new(FnExpr { op: fr.op, args: fr.args }));
                            proof {
                                assert(frames0.last() == (fr.op@, view_exprs(fr.args@)));
                                assert(view_expr(e) == SpecExpr::Call {
                                    op: frames0.last().0,
                                    args: frames0.last().1,
                                });
                            }
                            if stack.len() == 0 {
                                proof {
                                    assert(view_frames(stack@).len() == 0);
                                    assert(frames0.len() == 1);
                                }
                                return Ok(e);
                            }
                            let ghost frames1 = view_frames(stack@);
                            let mut fr2 = stack.pop().unwrap();
                            let ghost old_args2 = fr2.args@;
                            fr2.args.push(e);
                            stack.push(fr2);
                            proof {
                                assert(frames1 =~= frames0.drop_last());
                                lemma_view_exprs_push(old_args2, e);
                                assert(view_frames(stack@) =~= push_arg(
                                    frames0.drop_last(),
                                    view_expr(e),
                                ));
                            }
                        },
                        Token::Identifier(name) => {
                            proof {
                                assert(toks[0] == SpecToken::Identifier(name@));
                            }
                            return Err(
                                ParseError::UnexpectedToken { found: Token::Identifier(name) },
                            );
                        },
                    }
                },
            }
        }
    }
}

} // verus!
