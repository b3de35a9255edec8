//! The canonical prefix text of an expression tree: `(op arg ... arg)`
//! with single spaces, numbers printed digit for digit. Serializing a tree
//! and parsing the text back yields the identical tree (proved in
//! `round_trip`), so this text is a faithful interchange form.

use vstd::prelude::*;
use vstd::string::StringExecFns;
use vstd::string::StrSliceExecFns;

use crate::lexer::{push_char, SpecToken};
use crate::numeral::{all_digits, SpecNumeral};
use crate::parser::{
    size, size_all, view_expr, view_exprs, wf_expr, wf_exprs, Expr, SpecExpr,
    lemma_size_all_ge, lemma_view_exprs,
};

verus! {

/// The character of a digit value.
pub open spec fn digit_char_of(d: u8) -> char {
    ((d + 48) as u8) as char
}

/// The text of a digit run, most significant digit first.
pub open spec fn print_digits(ds: Seq<u8>) -> Seq<char> {
    ds.map_values(|d: u8| digit_char_of(d))
}

/// The text of a numeral: an optional minus sign, the digits before the
/// point, and — only when there are fractional digits — a point and the
/// digits after it.
pub open spec fn print_numeral(n: SpecNumeral) -> Seq<char> {
    let sign: Seq<char> = if n.negative {
        seq!['-']
    } else {
        Seq::empty()
    };
    let frac: Seq<char> = if n.frac_digits.len() == 0 {
        Seq::empty()
    } else {
        seq!['.'] + print_digits(n.frac_digits)
    };
    sign + print_digits(n.int_digits) + frac
}

/// The canonical text of a tree.
pub open spec fn print_expr(e: SpecExpr) -> Seq<char>
    decreases e,
{
    match e {
        SpecExpr::Number(n) => print_numeral(n),
        SpecExpr::Call { op, args } => seq!['('] + op + print_args(args) + seq![')'],
    }
}

/// The canonical text of an argument list: one space before each argument.
pub open spec fn print_args(es: Seq<SpecExpr>) -> Seq<char>
    decreases es,
{
    if es.len() == 0 {
        Seq::empty()
    } else {
        seq![' '] + print_expr(es[0]) + print_args(es.drop_first())
    }
}

/// The token sequence the canonical text of a tree scans to.
pub open spec fn token_seq(e: SpecExpr) -> Seq<SpecToken>
    decreases e,
{
    match e {
        SpecExpr::Number(n) => seq![SpecToken::Number(n)],
        SpecExpr::Call { op, args } => seq![SpecToken::OpenParenthesis, SpecToken::Identifier(op)]
            + args_token_seq(args) + seq![SpecToken::CloseParenthesis],
    }
}

pub open spec fn args_token_seq(es: Seq<SpecExpr>) -> Seq<SpecToken>
    decreases es,
{
    if es.len() == 0 {
        Seq::empty()
    } else {
        token_seq(es[0]) + args_token_seq(es.drop_first())
    }
}

/// Appends the text of a digit run.
fn write_digits(ds: &Vec<u8>, out: &mut String)
    requires
        all_digits(ds@),
    ensures
        final(out)@ == old(out)@ + print_digits(ds@),
{
    let ghost base = old(out)@;
    let mut k: usize = 0;
    proof {
        assert(base + print_digits(ds@.take(0)) =~= base);
    }
    while k < ds.len()
        invariant
            base == old(out)@,
            0 <= k <= ds@.len(),
            all_digits(ds@),
            out@ == base + print_digits(ds@.take(k as int)),
        decreases ds@.len() - k,
    {
        let d = ds[k];
        push_char(out, (d + 48) as char);
        proof {
            assert(out@ =~= base + print_digits(ds@.take(k + 1 as int)));
        }
        k = k + 1;
    }
    proof {
        assert(ds@.take(ds@.len() as int) =~= ds@);
    }
}

/// Appends the canonical text of a tree.
fn write_expr(e: &Expr, out: &mut String)
    requires
        wf_expr(e@),
    ensures
        final(out)@ == old(out)@ + print_expr(e@),
    decreases size(e@),
{
    let ghost base = old(out)@;
    match e {
        Expr::Number(num) => {
            if num.negative {
                push_char(out, '-');
            }
            write_digits(&num.int_digits, out);
            if num.frac_digits.len() > 0 {
                push_char(out, '.');
                write_digits(&num.frac_digits, out);
            }
            proof {
                assert(out@ =~= base + print_numeral(num@));
            }
        },
        Expr::FnExprPtr(f) => {
            let ghost argviews = view_exprs(f.args@);
            proof {
                lemma_view_exprs(f.args@);
            }
            push_char(out, '(');
            out.append(f.op.0.as_str());
            let mut i: usize = 0;
            proof {
                assert(argviews.skip(0) =~= argviews);
                assert(out@ =~= base + seq!['('] + f.op@);
            }
            while i < f.args.len()
                invariant
                    base == old(out)@,
                    e@ == (SpecExpr::Call { op: f.op@, args: argviews }),
                    size(e@) == 1 + size_all(argviews),
                    wf_exprs(argviews),
                    argviews == view_exprs(f.args@),
                    argviews.len() == f.args@.len(),
                    forall|k: int| 0 <= k < f.args@.len() ==> argviews[k] == view_expr(f.args@[k]),
                    0 <= i <= f.args@.len(),
                    out@ + print_args(argviews.skip(i as int)) == base + seq!['('] + f.op@
                        + print_args(argviews),
                decreases f.args@.len() - i,
            {
                proof {
                    assert(argviews.skip(i as int)[0] == argviews[i as int]);
                    assert(argviews.skip(i as int).drop_first() =~= argviews.skip(i + 1 as int));
                    lemma_size_all_ge(argviews, i as int);
                    lemma_wf_exprs_index(argviews, i as int);
                }
                push_char(out, ' ');
                write_expr(&f.args[i], out);
                proof {
                    assert(out@ + print_args(argviews.skip(i + 1 as int)) =~= base + seq!['(']
                        + f.op@ + print_args(argviews));
                }
                i = i + 1;
            }
            proof {
                assert(argviews.skip(i as int) =~= Seq::<SpecExpr>::empty());
                assert(out@ =~= base + seq!['('] + f.op@ + print_args(argviews));
            }
            push_char(out, ')');
            proof {
                assert(out@ =~= base + print_expr(e@));
            }
        },
    }
}

/// Every element of a well-formed sequence of trees is well formed.
pub proof fn lemma_wf_exprs_index(es: Seq<SpecExpr>, k: int)
    requires
        wf_exprs(es),
        0 <= k < es.len(),
    ensures
        wf_expr(es[k]),
    decreases k,
{
    if k > 0 {
        lemma_wf_exprs_index(es.drop_first(), k - 1);
    }
}

impl Expr {
    /// The canonical prefix text of this tree. Defined for the trees the
    /// parser can produce (well-formed numerals and scannable operator
    /// names).
    pub fn to_canonical_text(&self) -> (t: String)
        requires
            wf_expr(self@),
        ensures
            t@ == print_expr(self@),
    {
        let mut out = String::new();
        write_expr(self, &mut out);
        proof {
            assert(Seq::<char>::empty() + print_expr(self@) =~= print_expr(self@));
        }
        out
    }
}

} // verus!

