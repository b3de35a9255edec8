//! Round-trip idempotence: parsing a text and re-serializing the tree to
//! its canonical prefix text yields a text that parses back to the
//! structurally identical tree. The proof goes in two halves: the
//! canonical text of a tree scans to exactly the tree's token sequence,
//! and the parse machine run on a tree's token sequence rebuilds the tree.

use vstd::prelude::*;

use crate::canon::{args_token_seq, print_args, print_digits, print_expr, print_numeral, token_seq};
use crate::lexer::{
    digit_run_end, digit_vals, ident_run_end, is_digit_char, is_ident_char, is_whitespace_char,
    lemma_scan_token_advances, lemma_tokens_from_ws, scan_token, skip_ws, tokens_from, SpecToken,
};
use crate::numeral::{all_digits, wf_numeral, SpecNumeral};
use crate::parser::{
    parse_toks, push_arg, scannable_ident, size, size_all, spec_parse, wf_expr, wf_exprs, wf_token,
    SpecExpr, SpecParseError,
};

verus! {

/// A character that cannot continue any token: whitespace or a
/// parenthesis. Canonical text places one after every number and every
/// identifier, so scanning stops exactly there.
pub open spec fn is_boundary_char(c: char) -> bool {
    is_whitespace_char(c) || c == '(' || c == ')'
}

/// Position `j` ends the text or holds a boundary character.
pub open spec fn at_boundary(s: Seq<char>, j: int) -> bool {
    j == s.len() || (0 <= j < s.len() && is_boundary_char(s[j]))
}

/// A character of a pattern that stands at position `i` of a larger text.
proof fn lemma_char_of_match(s: Seq<char>, i: int, p: Seq<char>, a: int)
    requires
        0 <= i,
        i + p.len() <= s.len(),
        s.subrange(i, i + p.len()) == p,
        0 <= a < p.len(),
    ensures
        s[i + a] == p[a],
{
    assert(s[i + a] == s.subrange(i, i + p.len())[a]);
}

/// A stretch of a pattern that stands at position `i` of a larger text.
proof fn lemma_subrange_of_match(s: Seq<char>, i: int, p: Seq<char>, a: int, b: int)
    requires
        0 <= i,
        i + p.len() <= s.len(),
        s.subrange(i, i + p.len()) == p,
        0 <= a <= b <= p.len(),
    ensures
        s.subrange(i + a, i + b) == p.subrange(a, b),
{
    assert(s.subrange(i + a, i + b) =~= p.subrange(a, b)) by {
        assert forall|k: int| 0 <= k < b - a implies s.subrange(i + a, i + b)[k] == p.subrange(
            a,
            b,
        )[k] by {
            assert(s.subrange(i + a, i + b)[k] == s[i + a + k]);
            assert(s[i + a + k] == s.subrange(i, i + p.len())[a + k]);
        }
    }
}

/// A digit run covering exactly `[i, j)` ends at `j`.
proof fn lemma_digit_run_exact(s: Seq<char>, i: int, j: int)
    requires
        0 <= i <= j <= s.len(),
        forall|k: int| i <= k < j ==> is_digit_char(s[k]),
        j == s.len() || !is_digit_char(s[j]),
    ensures
        digit_run_end(s, i) == j,
    decreases j - i,
{
    if i < j {
        lemma_digit_run_exact(s, i + 1, j);
    }
}

/// An identifier run covering exactly `[i, j)` ends at `j`.
proof fn lemma_ident_run_exact(s: Seq<char>, i: int, j: int)
    requires
        0 <= i <= j <= s.len(),
        forall|k: int| i <= k < j ==> is_ident_char(s[k]),
        j == s.len() || !is_ident_char(s[j]),
    ensures
        ident_run_end(s, i) == j,
    decreases j - i,
{
    if i < j {
        lemma_ident_run_exact(s, i + 1, j);
    }
}

/// Printed digits are digit characters, and scanning them back gives the
/// digits.
proof fn lemma_printed_digits(s: Seq<char>, i: int, ds: Seq<u8>)
    requires
        all_digits(ds),
        0 <= i,
        i + ds.len() <= s.len(),
        s.subrange(i, i + ds.len()) == print_digits(ds),
    ensures
        forall|k: int| i <= k < i + ds.len() ==> is_digit_char(s[k]),
        digit_vals(s, i, i + ds.len()) == ds,
{
    assert forall|k: int| i <= k < i + ds.len() implies is_digit_char(s[k]) by {
        assert(s[k] == s.subrange(i, i + ds.len())[k - i]);
        assert(s[k] == print_digits(ds)[k - i]);
    }
    assert(digit_vals(s, i, i + ds.len()) =~= ds) by {
        assert forall|k: int| 0 <= k < ds.len() implies digit_vals(s, i, i + ds.len())[k]
            == ds[k] by {
            assert(s.subrange(i, i + ds.len())[k] == print_digits(ds)[k]);
        }
    }
}

/// Scanning at the start of a printed numeral, with a boundary after it,
/// produces exactly that numeral's token and stops just past it.
proof fn lemma_scan_print_numeral(s: Seq<char>, i: int, n: SpecNumeral)
    requires
        wf_numeral(n),
        0 <= i,
        i + print_numeral(n).len() <= s.len(),
        s.subrange(i, i + print_numeral(n).len()) == print_numeral(n),
        at_boundary(s, i + print_numeral(n).len()),
    ensures
        scan_token(s, i) == Some((SpecToken::Number(n), i + print_numeral(n).len())),
{
    let pn = print_numeral(n);
    let end = i + pn.len();
    let ilen = n.int_digits.len() as int;
    let flen = n.frac_digits.len() as int;
    let start = if n.negative {
        i + 1
    } else {
        i
    };
    let soff = start - i;
    // the sign
    if n.negative {
        lemma_char_of_match(s, i, pn, 0);
        assert(pn[0] == '-');
        assert(s[i] == '-');
    }
    // the digits before the point
    lemma_subrange_of_match(s, i, pn, soff, soff + ilen);
    assert(pn.subrange(soff, soff + ilen) =~= print_digits(n.int_digits));
    assert(s.subrange(start, start + ilen) == print_digits(n.int_digits));
    lemma_printed_digits(s, start, n.int_digits);
    // the point and the digits after it
    if flen > 0 {
        lemma_char_of_match(s, i, pn, soff + ilen);
        assert(pn[soff + ilen] == '.');
        assert(s[start + ilen] == '.');
        lemma_subrange_of_match(s, i, pn, soff + ilen + 1, pn.len() as int);
        assert(pn.subrange(soff + ilen + 1, pn.len() as int) =~= print_digits(n.frac_digits));
        assert(s.subrange(start + ilen + 1, end) == print_digits(n.frac_digits));
        lemma_printed_digits(s, start + ilen + 1, n.frac_digits);
        lemma_digit_run_exact(s, start, start + ilen);
        lemma_digit_run_exact(s, start + ilen + 1, end);
    } else {
        lemma_digit_run_exact(s, start, start + ilen);
    }
    if n.negative {
    } else {
        lemma_char_of_match(s, i, pn, 0);
        assert(pn[0] == print_digits(n.int_digits)[0]);
        assert(s[i] == pn[0]);
    }
    assert(skip_ws(s, i) == i);
    let num = SpecNumeral {
        negative: n.negative,
        int_digits: digit_vals(s, start, start + ilen),
        frac_digits: if flen > 0 {
            digit_vals(s, start + ilen + 1, end)
        } else {
            Seq::empty()
        },
    };
    assert(num =~= n);
}

/// Scanning at the start of a printed scannable identifier, with a
/// boundary after it, produces exactly that identifier's token.
proof fn lemma_scan_print_ident(s: Seq<char>, i: int, op: Seq<char>)
    requires
        scannable_ident(op),
        0 <= i,
        i + op.len() <= s.len(),
        s.subrange(i, i + op.len()) == op,
        at_boundary(s, i + op.len()),
    ensures
        scan_token(s, i) == Some((SpecToken::Identifier(op), i + op.len())),
{
    let end = i + op.len();
    assert forall|k: int| 0 <= k < op.len() implies s[i + k] == op[k] by {
        assert(s.subrange(i, end)[k] == s[i + k]);
    }
    assert(s[i] == op[0]);
    assert(is_ident_char(s[i]));
    assert(skip_ws(s, i) == i);
    if op[0] == '-' {
        assert(op.len() == 1);
        assert(scan_token(s, i) == Some((SpecToken::Identifier(seq!['-']), i + 1)));
        assert(seq!['-'] =~= op);
    } else {
        assert forall|k: int| i <= k < end implies is_ident_char(s[k]) by {
            assert(s[k] == op[k - i]);
        }
        lemma_ident_run_exact(s, i, end);
        assert(s.subrange(i, ident_run_end(s, i)) == op);
    }
}

/// The canonical text of a tree, embedded in a larger text with a
/// boundary after it, scans to the tree's token sequence and scanning
/// continues just past it.
proof fn lemma_print_scans(e: SpecExpr, s: Seq<char>, i: int)
    requires
        wf_expr(e),
        0 <= i,
        i + print_expr(e).len() <= s.len(),
        s.subrange(i, i + print_expr(e).len()) == print_expr(e),
        at_boundary(s, i + print_expr(e).len()),
    ensures
        tokens_from(s, i) == token_seq(e) + tokens_from(s, i + print_expr(e).len()),
    decreases size(e), 0nat,
{
    let pe = print_expr(e);
    let end = i + pe.len();
    match e {
        SpecExpr::Number(n) => {
            lemma_scan_print_numeral(s, i, n);
            assert(tokens_from(s, i) =~= token_seq(e) + tokens_from(s, end));
        },
        SpecExpr::Call { op, args } => {
            let oplen = op.len() as int;
            let pa = print_args(args);
            let iop = i + 1;
            let iargs = iop + oplen;
            let iclose = iargs + pa.len();
            assert(pe =~= seq!['('] + op + pa + seq![')']);
            // the opening parenthesis
            lemma_char_of_match(s, i, pe, 0);
            assert(pe[0] == '(');
            assert(s[i] == '(');
            assert(skip_ws(s, i) == i);
            assert(scan_token(s, i) == Some((SpecToken::OpenParenthesis, iop)));
            // the operator name, ended by a space or the closing parenthesis
            lemma_subrange_of_match(s, i, pe, 1, 1 + oplen);
            assert(pe.subrange(1, 1 + oplen) =~= op);
            assert(s.subrange(iop, iargs) == op);
            lemma_char_of_match(s, i, pe, pe.len() - 1);
            assert(pe[pe.len() - 1] == ')');
            assert(s[iclose] == ')');
            if args.len() > 0 {
                lemma_char_of_match(s, i, pe, 1 + oplen);
                assert(pe[1 + oplen] == pa[0]);
                assert(pa[0] == ' ');
                assert(s[iargs] == ' ');
            }
            lemma_scan_print_ident(s, iop, op);
            // the arguments
            lemma_subrange_of_match(s, i, pe, 1 + oplen, 1 + oplen + pa.len());
            assert(pe.subrange(1 + oplen, 1 + oplen + pa.len()) =~= pa);
            assert(s.subrange(iargs, iclose) == pa);
            lemma_print_scans_args(args, s, iargs);
            // the closing parenthesis
            assert(skip_ws(s, iclose) == iclose);
            assert(scan_token(s, iclose) == Some((SpecToken::CloseParenthesis, end)));
            assert(tokens_from(s, i) == seq![SpecToken::OpenParenthesis] + tokens_from(s, iop));
            assert(tokens_from(s, iop) == seq![SpecToken::Identifier(op)] + tokens_from(s, iargs));
            assert(tokens_from(s, iclose) == seq![SpecToken::CloseParenthesis] + tokens_from(
                s,
                end,
            ));
            assert(tokens_from(s, i) =~= token_seq(e) + tokens_from(s, end));
        },
    }
}

/// The canonical text of an argument list, embedded before a closing
/// parenthesis, scans to the arguments' token sequences in order.
proof fn lemma_print_scans_args(args: Seq<SpecExpr>, s: Seq<char>, i: int)
    requires
        wf_exprs(args),
        0 <= i,
        i + print_args(args).len() < s.len(),
        s.subrange(i, i + print_args(args).len()) == print_args(args),
        s[i + print_args(args).len()] == ')',
    ensures
        tokens_from(s, i) == args_token_seq(args) + tokens_from(s, i + print_args(args).len()),
    decreases size_all(args), args.len(),
{
    let pa = print_args(args);
    let end = i + pa.len();
    if args.len() == 0 {
        assert(tokens_from(s, i) =~= args_token_seq(args) + tokens_from(s, i));
    } else {
        let e0 = args[0];
        let rest = args.drop_first();
        let pe0 = print_expr(e0);
        let j = i + 1 + pe0.len();
        assert(pa =~= seq![' '] + pe0 + print_args(rest));
        lemma_char_of_match(s, i, pa, 0);
        assert(pa[0] == ' ');
        assert(s[i] == ' ');
        lemma_tokens_from_ws(s, i);
        // the first argument, ended by the next argument's space or the
        // closing parenthesis
        lemma_subrange_of_match(s, i, pa, 1, 1 + pe0.len() as int);
        assert(pa.subrange(1, 1 + pe0.len() as int) =~= pe0);
        assert(s.subrange(i + 1, j) == pe0);
        if rest.len() == 0 {
            assert(j == end);
            assert(at_boundary(s, j));
        } else {
            lemma_char_of_match(s, i, pa, 1 + pe0.len() as int);
            assert(pa[1 + pe0.len() as int] == print_args(rest)[0]);
            assert(print_args(rest)[0] == ' ');
            assert(s[j] == ' ');
            assert(at_boundary(s, j));
        }
        crate::parser::lemma_size_all_ge(args, 0);
        lemma_print_scans(e0, s, i + 1);
        // the remaining arguments
        lemma_subrange_of_match(s, i, pa, 1 + pe0.len() as int, pa.len() as int);
        assert(pa.subrange(1 + pe0.len() as int, pa.len() as int) =~= print_args(rest));
        assert(s.subrange(j, end) == print_args(rest));
        lemma_print_scans_args(rest, s, j);
        assert(tokens_from(s, i) =~= args_token_seq(args) + tokens_from(s, end));
    }
}

/// Running the parse machine on a tree's token sequence delivers the tree:
/// the result when no call is open, the next argument of the innermost one
/// otherwise.
proof fn lemma_parse_token_seq(
    e: SpecExpr,
    stack: Seq<(Seq<char>, Seq<SpecExpr>)>,
    rest: Seq<SpecToken>,
)
    ensures
        parse_toks(token_seq(e) + rest, stack) == if stack.len() == 0 {
            Ok::<(SpecExpr, Seq<SpecToken>), SpecParseError>((e, rest))
        } else {
            parse_toks(rest, push_arg(stack, e))
        },
    decreases size(e), 0nat,
{
    let toks = token_seq(e) + rest;
    match e {
        SpecExpr::Number(n) => {
            assert(toks[0] == SpecToken::Number(n));
            assert(toks.drop_first() =~= rest);
        },
        SpecExpr::Call { op, args } => {
            assert(toks =~= seq![SpecToken::OpenParenthesis, SpecToken::Identifier(op)] + (
            args_token_seq(args) + (seq![SpecToken::CloseParenthesis] + rest)));
            assert(toks[0] == SpecToken::OpenParenthesis);
            assert(toks[1] == SpecToken::Identifier(op));
            assert(toks.len() >= 2);
            assert(toks.skip(2) =~= args_token_seq(args) + (seq![SpecToken::CloseParenthesis]
                + rest));
            lemma_parse_args_token_seq(args, Seq::empty(), op, stack, rest);
            assert(Seq::empty() + args =~= args);
        },
    }
}

/// Running the parse machine over an argument list's token sequence, then
/// the closing parenthesis, closes the innermost call with those arguments
/// appended.
proof fn lemma_parse_args_token_seq(
    args: Seq<SpecExpr>,
    done: Seq<SpecExpr>,
    op: Seq<char>,
    stack: Seq<(Seq<char>, Seq<SpecExpr>)>,
    rest: Seq<SpecToken>,
)
    ensures
        parse_toks(
            args_token_seq(args) + (seq![SpecToken::CloseParenthesis] + rest),
            stack.push((op, done)),
        ) == if stack.len() == 0 {
            Ok::<(SpecExpr, Seq<SpecToken>), SpecParseError>(
                (SpecExpr::Call { op, args: done + args }, rest),
            )
        } else {
            parse_toks(rest, push_arg(stack, SpecExpr::Call { op, args: done + args }))
        },
    decreases size_all(args), args.len(),
{
    let toks = args_token_seq(args) + (seq![SpecToken::CloseParenthesis] + rest);
    let stack2 = stack.push((op, done));
    if args.len() == 0 {
        assert(toks =~= seq![SpecToken::CloseParenthesis] + rest);
        assert(toks[0] == SpecToken::CloseParenthesis);
        assert(stack2.len() >= 1);
        assert(stack2.last() == (op, done));
        assert(done + args =~= done);
        assert(toks.drop_first() =~= rest);
        if stack.len() == 0 {
            assert(stack2.len() == 1);
        } else {
            assert(stack2.drop_last() =~= stack);
        }
    } else {
        let a0 = args[0];
        let rest_args = args.drop_first();
        let rest_toks = args_token_seq(rest_args) + (seq![SpecToken::CloseParenthesis] + rest);
        assert(toks =~= token_seq(a0) + rest_toks);
        crate::parser::lemma_size_all_ge(args, 0);
        lemma_parse_token_seq(a0, stack2, rest_toks);
        assert(stack2.len() >= 1);
        assert(push_arg(stack2, a0) =~= stack.push((op, done.push(a0))));
        lemma_parse_args_token_seq(rest_args, done.push(a0), op, stack, rest);
        assert(done.push(a0) + rest_args =~= done + args);
    }
}

/// Every token the scanner produces is well formed.
proof fn lemma_scan_token_wf(s: Seq<char>, i: int)
    requires
        0 <= i <= s.len(),
    ensures
        scan_token(s, i) matches Some((t, j)) ==> wf_token(t),
{
    crate::lexer::lemma_skip_ws_bounds(s, i);
    let j = skip_ws(s, i);
    if j < s.len() {
        let c = s[j];
        if is_digit_char(c) {
            crate::lexer::lemma_scan_number_bounds(s, j, false);
        } else if c == '(' || c == ')' {
        } else if c == '-' {
            if j + 1 < s.len() && is_digit_char(s[j + 1]) {
                crate::lexer::lemma_scan_number_bounds(s, j + 1, true);
            } else {
                assert(scannable_ident(seq!['-']));
            }
        } else {
            crate::lexer::lemma_ident_run_bounds(s, j);
            let name = s.subrange(j, ident_run_end(s, j));
            assert forall|k: int| 0 <= k < name.len() implies is_ident_char(name[k]) by {
                assert(name[k] == s[j + k]);
            }
            assert(name[0] == c);
            assert(scannable_ident(name));
        }
    }
}

/// Every token the scanner produces from any position on is well formed.
proof fn lemma_tokens_from_wf(s: Seq<char>, i: int)
    requires
        0 <= i <= s.len(),
    ensures
        forall|k: int|
            0 <= k < tokens_from(s, i).len() ==> wf_token(#[trigger] tokens_from(s, i)[k]),
    decreases s.len() - i,
{
    lemma_scan_token_wf(s, i);
    lemma_scan_token_advances(s, i);
    match scan_token(s, i) {
        None => {},
        Some((t, j)) => {
            lemma_tokens_from_wf(s, j);
            assert forall|k: int| 0 <= k < tokens_from(s, i).len() implies wf_token(
                #[trigger] tokens_from(s, i)[k],
            ) by {
                if k > 0 {
                    assert(tokens_from(s, i)[k] == tokens_from(s, j)[k - 1]);
                }
            }
        },
    }
}

/// Appending a well-formed tree keeps a sequence of trees well formed.
proof fn lemma_wf_exprs_push(es: Seq<SpecExpr>, e: SpecExpr)
    requires
        wf_exprs(es),
        wf_expr(e),
    ensures
        wf_exprs(es.push(e)),
    decreases es,
{
    if es.len() == 0 {
        assert(es.push(e)[0] == e);
        assert(es.push(e).drop_first() =~= Seq::<SpecExpr>::empty());
        assert(wf_exprs(Seq::<SpecExpr>::empty()));
        assert(wf_exprs(es.push(e)));
    } else {
        assert(es.push(e)[0] == es[0]);
        lemma_wf_exprs_push(es.drop_first(), e);
        assert(es.push(e).drop_first() =~= es.drop_first().push(e));
        assert(wf_exprs(es.push(e)));
    }
}

/// Every open call on the parse stack has a scannable operator and
/// well-formed arguments.
pub open spec fn wf_stack(stack: Seq<(Seq<char>, Seq<SpecExpr>)>) -> bool {
    forall|k: int|
        0 <= k < stack.len() ==> scannable_ident(#[trigger] stack[k].0) && wf_exprs(stack[k].1)
}

/// The parse machine, fed well-formed tokens from a well-formed stack,
/// delivers a well-formed tree.
proof fn lemma_parse_toks_wf(toks: Seq<SpecToken>, stack: Seq<(Seq<char>, Seq<SpecExpr>)>)
    requires
        forall|k: int| 0 <= k < toks.len() ==> wf_token(#[trigger] toks[k]),
        wf_stack(stack),
    ensures
        parse_toks(toks, stack) matches Ok((e, _)) ==> wf_expr(e),
    decreases toks.len(),
{
    if toks.len() == 0 {
    } else {
        assert(wf_token(toks[0]));
        assert forall|k: int| 0 <= k < toks.drop_first().len() implies wf_token(
            #[trigger] toks.drop_first()[k],
        ) by {
            assert(toks.drop_first()[k] == toks[k + 1]);
        }
        match toks[0] {
            SpecToken::Number(n) => {
                let e = SpecExpr::Number(n);
                if stack.len() == 0 {
                } else {
                    let st2 = push_arg(stack, e);
                    assert(wf_stack(st2)) by {
                        lemma_wf_exprs_push(stack.last().1, e);
                        assert forall|k: int| 0 <= k < st2.len() implies scannable_ident(
                            #[trigger] st2[k].0,
                        ) && wf_exprs(st2[k].1) by {
                            if k < stack.len() - 1 {
                                assert(st2[k] == stack[k]);
                            }
                        }
                    }
                    lemma_parse_toks_wf(toks.drop_first(), st2);
                }
            },
            SpecToken::OpenParenthesis => {
                if toks.len() == 1 {
                } else {
                    match toks[1] {
                        SpecToken::Identifier(op) => {
                            assert(wf_token(toks[1]));
                            let st2 = stack.push((op, Seq::empty()));
                            assert(wf_stack(st2)) by {
                                assert(wf_exprs(Seq::<SpecExpr>::empty()));
                                assert forall|k: int| 0 <= k < st2.len() implies scannable_ident(
                                    #[trigger] st2[k].0,
                                ) && wf_exprs(st2[k].1) by {
                                    if k < stack.len() {
                                        assert(st2[k] == stack[k]);
                                    }
                                }
                            }
                            assert forall|k: int| 0 <= k < toks.skip(2).len() implies wf_token(
                                #[trigger] toks.skip(2)[k],
                            ) by {
                                assert(toks.skip(2)[k] == toks[k + 2]);
                            }
                            lemma_parse_toks_wf(toks.skip(2), st2);
                        },
                        _ => {},
                    }
                }
            },
            SpecToken::CloseParenthesis => {
                if stack.len() == 0 {
                } else {
                    let e = SpecExpr::Call { op: stack.last().0, args: stack.last().1 };
                    assert(wf_expr(e));
                    if stack.len() == 1 {
                    } else {
                        let st2 = push_arg(stack.drop_last(), e);
                        assert(wf_stack(st2)) by {
                            lemma_wf_exprs_push(stack.drop_last().last().1, e);
                            assert forall|k: int| 0 <= k < st2.len() implies scannable_ident(
                                #[trigger] st2[k].0,
                            ) && wf_exprs(st2[k].1) by {
                                if k < stack.len() - 2 {
                                    assert(st2[k] == stack[k]);
                                }
                            }
                        }
                        lemma_parse_toks_wf(toks.drop_first(), st2);
                    }
                }
            },
            SpecToken::Identifier(_) => {},
        }
    }
}

/// Every tree the parser produces is well formed: its numerals are well
/// formed and its operator names are ones the scanner can produce.
pub proof fn lemma_parse_wf(s: Seq<char>)
    ensures
        spec_parse(s) matches Ok((e, _)) ==> wf_expr(e),
{
    lemma_tokens_from_wf(s, 0);
    lemma_parse_toks_wf(tokens_from(s, 0), Seq::empty());
}

/// Serializing a well-formed tree to its canonical text and parsing that
/// text yields the identical tree, with the whole text consumed.
pub proof fn lemma_print_then_parse(e: SpecExpr)
    requires
        wf_expr(e),
    ensures
        spec_parse(print_expr(e)) == Ok::<(SpecExpr, Seq<SpecToken>), SpecParseError>(
            (e, Seq::empty()),
        ),
{
    let p = print_expr(e);
    assert(p.subrange(0, p.len() as int) =~= p);
    lemma_print_scans(e, p, 0);
    assert(skip_ws(p, p.len() as int) == p.len());
    assert(tokens_from(p, p.len() as int) =~= Seq::<SpecToken>::empty());
    assert(tokens_from(p, 0) =~= token_seq(e) + Seq::<SpecToken>::empty());
    lemma_parse_token_seq(e, Seq::empty(), Seq::empty());
    assert(token_seq(e) + Seq::<SpecToken>::empty() =~= tokens_from(p, 0));
}

/// Round-trip idempotence: parsing a text, re-serializing the resulting
/// tree to its canonical prefix text, and parsing again yields the
/// structurally identical tree, for every tree the grammar can produce.
pub proof fn lemma_round_trip(s: Seq<char>)
    ensures
        spec_parse(s) matches Ok((e, _)) ==> spec_parse(print_expr(e)) == Ok::<
            (SpecExpr, Seq<SpecToken>),
            SpecParseError,
        >((e, Seq::empty())),
{
    match spec_parse(s) {
        Ok((e, _)) => {
            lemma_parse_wf(s);
            lemma_print_then_parse(e);
        },
        Err(_) => {},
    }
}

} // verus!
