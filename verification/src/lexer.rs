//! The scanner: turns the character stream into tokens, one at a time, on
//! demand. The scanner is total: every character is classified as
//! whitespace, a parenthesis, part of a number literal, or part of an
//! identifier, so no input fails to scan.
//!
//! The spec functions here are the mathematical model of scanning; each
//! executable method's contract says it computes exactly that model.

use vstd::prelude::*;

use crate::numeral::{all_digits, Numeral, SpecNumeral};
use crate::source_stream::SourceStream;

verus! {

/// A lexical token: a parenthesis, an identifier (operator symbols and bare
/// names alike), or a number literal kept in its exact decimal form.
#[derive(Debug, Clone, PartialEq)]
pub enum Token {
    OpenParenthesis,
    CloseParenthesis,
    Identifier(String),
    Number(Numeral),
}

/// The mathematical content of a `Token`.
pub enum SpecToken {
    OpenParenthesis,
    CloseParenthesis,
    Identifier(Seq<char>),
    Number(SpecNumeral),
}

impl View for Token {
    type V = SpecToken;

    open spec fn view(&self) -> SpecToken {
        match self {
            Token::OpenParenthesis => SpecToken::OpenParenthesis,
            Token::CloseParenthesis => SpecToken::CloseParenthesis,
            Token::Identifier(name) => SpecToken::Identifier(name@),
            Token::Number(n) => SpecToken::Number(n@),
        }
    }
}

/// The whitespace characters the scanner skips.
pub open spec fn is_whitespace_char(c: char) -> bool {
    c == ' ' || c == '\t' || c == '\r' || c == '\n'
}

/// The decimal digits.
pub open spec fn is_digit_char(c: char) -> bool {
    '0' <= c && c <= '9'
}

/// The characters an identifier run consumes: anything that is not
/// whitespace, not a parenthesis, and not a digit.
pub open spec fn is_ident_char(c: char) -> bool {
    !is_whitespace_char(c) && !is_digit_char(c) && c != '(' && c != ')'
}

/// The value of a digit character.
pub open spec fn digit_of(c: char) -> u8 {
    (c as u32 - 48) as u8
}

/// The first position at or after `i` holding a non-whitespace character
/// (or the end of the text).
pub open spec fn skip_ws(s: Seq<char>, i: int) -> int
    decreases s.len() - i,
{
    if 0 <= i < s.len() && is_whitespace_char(s[i]) {
        skip_ws(s, i + 1)
    } else {
        i
    }
}

/// The end of the digit run starting at `i`.
pub open spec fn digit_run_end(s: Seq<char>, i: int) -> int
    decreases s.len() - i,
{
    if 0 <= i < s.len() && is_digit_char(s[i]) {
        digit_run_end(s, i + 1)
    } else {
        i
    }
}

/// The end of the identifier run starting at `i`.
pub open spec fn ident_run_end(s: Seq<char>, i: int) -> int
    decreases s.len() - i,
{
    if 0 <= i < s.len() && is_ident_char(s[i]) {
        ident_run_end(s, i + 1)
    } else {
        i
    }
}

/// The digit values of `s[i..j]`.
pub open spec fn digit_vals(s: Seq<char>, i: int, j: int) -> Seq<u8> {
    s.subrange(i, j).map_values(|c: char| digit_of(c))
}

/// The token produced by a number literal whose first digit stands at
/// `start`, and the position just after it. The integer digits run as far
/// as they go; a decimal point directly after them is consumed along with
/// the fractional digit run (which may be empty).
pub open spec fn scan_number(s: Seq<char>, start: int, negative: bool) -> (SpecToken, int) {
    let ie = digit_run_end(s, start);
    if 0 <= ie < s.len() && s[ie] == '.' {
        let fe = digit_run_end(s, ie + 1);
        (
            SpecToken::Number(
                SpecNumeral {
                    negative,
                    int_digits: digit_vals(s, start, ie),
                    frac_digits: digit_vals(s, ie + 1, fe),
                },
            ),
            fe,
        )
    } else {
        (
            SpecToken::Number(
                SpecNumeral {
                    negative,
                    int_digits: digit_vals(s, start, ie),
                    frac_digits: Seq::empty(),
                },
            ),
            ie,
        )
    }
}

/// One step of scanning: the token beginning at or after `i` once
/// whitespace is skipped, together with the position just after it, or
/// `None` when only whitespace remains. A `-` immediately followed by a
/// digit begins a negative number literal; any other `-` is the identifier
/// consisting of that one character.
pub open spec fn scan_token(s: Seq<char>, i: int) -> Option<(SpecToken, int)> {
    let j = skip_ws(s, i);
    if !(0 <= j < s.len()) {
        None
    } else {
        let c = s[j];
        if c == '(' {
            Some((SpecToken::OpenParenthesis, j + 1))
        } else if c == ')' {
            Some((SpecToken::CloseParenthesis, j + 1))
        } else if is_digit_char(c) {
            Some(scan_number(s, j, false))
        } else if c == '-' {
            if j + 1 < s.len() && is_digit_char(s[j + 1]) {
                Some(scan_number(s, j + 1, true))
            } else {
                Some((SpecToken::Identifier(seq!['-']), j + 1))
            }
        } else {
            Some((SpecToken::Identifier(s.subrange(j, ident_run_end(s, j))), ident_run_end(s, j)))
        }
    }
}

/// The whole token sequence from position `i` on. (The guard on the
/// recursive call keeps the definition well-founded; `lemma_scan_token_advances`
/// shows the guard always holds, so the unguarded branch is never taken.)
pub open spec fn tokens_from(s: Seq<char>, i: int) -> Seq<SpecToken>
    decreases s.len() - i,
{
    match scan_token(s, i) {
        None => Seq::empty(),
        Some((t, j)) => if i < j <= s.len() {
            seq![t] + tokens_from(s, j)
        } else {
            seq![t]
        },
    }
}

/// Skipping whitespace stays within the text, lands on a non-whitespace
/// character unless the text ends, and skips only whitespace.
pub proof fn lemma_skip_ws_bounds(s: Seq<char>, i: int)
    requires
        0 <= i <= s.len(),
    ensures
        i <= skip_ws(s, i) <= s.len(),
        skip_ws(s, i) < s.len() ==> !is_whitespace_char(s[skip_ws(s, i)]),
        forall|k: int| i <= k < skip_ws(s, i) ==> is_whitespace_char(s[k]),
    decreases s.len() - i,
{
    if 0 <= i < s.len() && is_whitespace_char(s[i]) {
        lemma_skip_ws_bounds(s, i + 1);
    }
}

/// A digit run stays within the text, ends at a non-digit unless the text
/// ends, and covers only digits.
pub proof fn lemma_digit_run_bounds(s: Seq<char>, i: int)
    requires
        0 <= i <= s.len(),
    ensures
        i <= digit_run_end(s, i) <= s.len(),
        digit_run_end(s, i) < s.len() ==> !is_digit_char(s[digit_run_end(s, i)]),
        forall|k: int| i <= k < digit_run_end(s, i) ==> is_digit_char(s[k]),
    decreases s.len() - i,
{
    if 0 <= i < s.len() && is_digit_char(s[i]) {
        lemma_digit_run_bounds(s, i + 1);
    }
}

/// An identifier run stays within the text, ends at a non-identifier
/// character unless the text ends, and covers only identifier characters.
pub proof fn lemma_ident_run_bounds(s: Seq<char>, i: int)
    requires
        0 <= i <= s.len(),
    ensures
        i <= ident_run_end(s, i) <= s.len(),
        ident_run_end(s, i) < s.len() ==> !is_ident_char(s[ident_run_end(s, i)]),
        forall|k: int| i <= k < ident_run_end(s, i) ==> is_ident_char(s[k]),
    decreases s.len() - i,
{
    if 0 <= i < s.len() && is_ident_char(s[i]) {
        lemma_ident_run_bounds(s, i + 1);
    }
}

/// The digit values of a digit run are digits.
pub proof fn lemma_digit_vals_are_digits(s: Seq<char>, i: int, j: int)
    requires
        0 <= i <= j <= s.len(),
        forall|k: int| i <= k < j ==> is_digit_char(s[k]),
    ensures
        all_digits(digit_vals(s, i, j)),
        digit_vals(s, i, j).len() == j - i,
{
    assert forall|k: int| 0 <= k < digit_vals(s, i, j).len() implies digit_vals(s, i, j)[k]
        <= 9 by {
        assert(is_digit_char(s[i + k]));
    }
}

/// A scanned number token is well formed and ends within the text, past
/// where it began.
pub proof fn lemma_scan_number_bounds(s: Seq<char>, start: int, negative: bool)
    requires
        0 <= start < s.len(),
        is_digit_char(s[start]),
    ensures
        start < scan_number(s, start, negative).1 <= s.len(),
        scan_number(s, start, negative).0 matches SpecToken::Number(n) && crate::numeral::wf_numeral(
            n,
        ),
{
    lemma_digit_run_bounds(s, start);
    let ie = digit_run_end(s, start);
    lemma_digit_vals_are_digits(s, start, ie);
    if 0 <= ie < s.len() && s[ie] == '.' {
        lemma_digit_run_bounds(s, ie + 1);
        lemma_digit_vals_are_digits(s, ie + 1, digit_run_end(s, ie + 1));
    }
}

/// A scan that produces a token moves strictly forward and never past the
/// end; a scan that produces none stands at the end after the whitespace.
pub proof fn lemma_scan_token_advances(s: Seq<char>, i: int)
    requires
        0 <= i <= s.len(),
    ensures
        scan_token(s, i) matches Some((t, j)) ==> i < j <= s.len(),
        scan_token(s, i) is None ==> skip_ws(s, i) == s.len(),
{
    lemma_skip_ws_bounds(s, i);
    let j = skip_ws(s, i);
    if j < s.len() {
        let c = s[j];
        if is_digit_char(c) {
            lemma_scan_number_bounds(s, j, false);
        } else if c == '(' || c == ')' {
        } else if c == '-' {
            if j + 1 < s.len() && is_digit_char(s[j + 1]) {
                lemma_scan_number_bounds(s, j + 1, true);
            }
        } else {
            lemma_ident_run_bounds(s, j);
        }
    }
}

/// A leading whitespace character changes nothing: scanning from a
/// whitespace position and from just past it yields the same tokens, so
/// runs of whitespace of any shape or length separate tokens uniformly.
pub proof fn lemma_tokens_from_ws(s: Seq<char>, j: int)
    requires
        0 <= j < s.len(),
        is_whitespace_char(s[j]),
    ensures
        tokens_from(s, j) == tokens_from(s, j + 1),
        scan_token(s, j) == scan_token(s, j + 1),
{
    assert(skip_ws(s, j) == skip_ws(s, j + 1));
    lemma_scan_token_advances(s, j + 1);
    match scan_token(s, j + 1) {
        None => {
            assert(tokens_from(s, j) =~= tokens_from(s, j + 1));
        },
        Some((t, k)) => {
            assert(tokens_from(s, j) =~= seq![t] + tokens_from(s, k));
            assert(tokens_from(s, j + 1) =~= seq![t] + tokens_from(s, k));
        },
    }
}

/// A run of whitespace, of any length and composition, is transparent:
/// the tokens from a position are the tokens from the first
/// non-whitespace position after it.
pub proof fn lemma_tokens_from_skip_ws(s: Seq<char>, i: int)
    requires
        0 <= i <= s.len(),
    ensures
        tokens_from(s, i) == tokens_from(s, skip_ws(s, i)),
    decreases s.len() - i,
{
    if 0 <= i < s.len() && is_whitespace_char(s[i]) {
        lemma_tokens_from_ws(s, i);
        lemma_tokens_from_skip_ws(s, i + 1);
    }
}

/// Appends one character to a string.
///
/// Relies on `String::push` of std: it appends the given character to the
/// end of the string.
#[verifier::external_body]
pub(crate) fn push_char(s: &mut String, c: char)
    ensures
        final(s)@ == old(s)@.push(c),
{
    s.push(c);
}

/// Whether `c` is one of the whitespace characters the scanner skips.
pub(crate) fn ws_char(c: char) -> (b: bool)
    ensures
        b == is_whitespace_char(c),
{
    c == ' ' || c == '\t' || c == '\r' || c == '\n'
}

/// Whether `c` is a decimal digit.
pub(crate) fn digit_char(c: char) -> (b: bool)
    ensures
        b == is_digit_char(c),
{
    let u = c as u32;
    48 <= u && u <= 57
}

/// Whether `c` can stand in an identifier run.
pub(crate) fn ident_char(c: char) -> (b: bool)
    ensures
        b == is_ident_char(c),
{
    !ws_char(c) && !digit_char(c) && c != '(' && c != ')'
}

/// The scanner: a source stream read one token at a time.
pub struct Lexer {
    pub source: SourceStream,
}

impl Lexer {
    /// The characters being scanned.
    pub open spec fn chars(&self) -> Seq<char> {
        self.source.chars()
    }

    /// The position of the next character to scan.
    pub open spec fn position(&self) -> int {
        self.source.position()
    }

    pub open spec fn wf(&self) -> bool {
        self.source.wf()
    }

    pub fn new(source: &str) -> (l: Lexer)
        ensures
            l.wf(),
            l.chars() == source@,
            l.position() == 0,
    {
        Lexer { source: SourceStream::new(source) }
    }

    /// Advances to the next non-whitespace character.
    fn skip_whitespace(&mut self)
        requires
            old(self).wf(),
        ensures
            final(self).wf(),
            final(self).chars() == old(self).chars(),
            final(self).position() == skip_ws(old(self).chars(), old(self).position()),
    {
        loop
            invariant
                self.wf(),
                self.chars() == old(self).chars(),
                skip_ws(self.chars(), self.position()) == skip_ws(
                    old(self).chars(),
                    old(self).position(),
                ),
            decreases self.chars().len() - self.position(),
        {
            match self.source.cur_char() {
                Some(c) => {
                    if ws_char(c) {
                        self.source.advance();
                    } else {
                        return ;
                    }
                },
                None => {
                    return ;
                },
            }
        }
    }

    /// Reads the digit run starting at the current position.
    fn read_digits(&mut self) -> (ds: Vec<u8>)
        requires
            old(self).wf(),
        ensures
            final(self).wf(),
            final(self).chars() == old(self).chars(),
            final(self).position() == digit_run_end(old(self).chars(), old(self).position()),
            ds@ == digit_vals(
                old(self).chars(),
                old(self).position(),
                digit_run_end(old(self).chars(), old(self).position()),
            ),
    {
        let ghost s = old(self).chars();
        let ghost start = old(self).position();
        let mut ds: Vec<u8> = Vec::new();
        loop
            invariant
                s == old(self).chars(),
                start == old(self).position(),
                self.wf(),
                self.chars() == s,
                0 <= start <= self.position() <= s.len(),
                digit_run_end(s, self.position()) == digit_run_end(s, start),
                forall|k: int| start <= k < self.position() ==> is_digit_char(s[k]),
                ds@ == digit_vals(s, start, self.position()),
            decreases s.len() - self.position(),
        {
            match self.source.cur_char() {
                Some(c) => {
                    if digit_char(c) {
                        let ghost pos = self.position();
                        ds.push((c as u32 - 48) as u8);
                        self.source.advance();
                        proof {
                            assert(ds@ =~= digit_vals(s, start, pos + 1));
                        }
                    } else {
                        proof {
                            assert(digit_run_end(s, self.position()) == self.position());
                        }
                        return ds;
                    }
                },
                None => {
                    proof {
                        assert(digit_run_end(s, self.position()) == self.position());
                    }
                    return ds;
                },
            }
        }
    }

    /// Reads a number literal whose first digit stands at the current
    /// position; `negative` records a minus sign the caller has already
    /// consumed.
    fn read_number(&mut self, negative: bool) -> (n: Numeral)
        requires
            old(self).wf(),
            0 <= old(self).position() < old(self).chars().len(),
            is_digit_char(old(self).chars()[old(self).position()]),
        ensures
            final(self).wf(),
            final(self).chars() == old(self).chars(),
            scan_number(old(self).chars(), old(self).position(), negative) == (
                SpecToken::Number(n@),
                final(self).position(),
            ),
    {
        let ghost s = old(self).chars();
        let ghost start = old(self).position();
        let int_digits = self.read_digits();
        let mut frac_digits: Vec<u8> = Vec::new();
        let mut has_point = false;
        match self.source.cur_char() {
            Some(c) => {
                if c == '.' {
                    has_point = true;
                    self.source.advance();
                    frac_digits = self.read_digits();
                }
            },
            None => {},
        }
        let n = Numeral { negative, int_digits, frac_digits };
        proof {
            if !has_point {
                assert(n@.frac_digits =~= Seq::<u8>::empty());
            }
        }
        n
    }

    /// Reads the identifier run starting at the current position.
    fn read_identifier(&mut self) -> (id: String)
        requires
            old(self).wf(),
        ensures
            final(self).wf(),
            final(self).chars() == old(self).chars(),
            final(self).position() == ident_run_end(old(self).chars(), old(self).position()),
            id@ == old(self).chars().subrange(
                old(self).position(),
                ident_run_end(old(self).chars(), old(self).position()),
            ),
    {
        let ghost s = old(self).chars();
        let ghost start = old(self).position();
        let mut id = String::new();
        loop
            invariant
                s == old(self).chars(),
                start == old(self).position(),
                self.wf(),
                self.chars() == s,
                0 <= start <= self.position() <= s.len(),
                ident_run_end(s, self.position()) == ident_run_end(s, start),
                id@ == s.subrange(start, self.position()),
            decreases s.len() - self.position(),
        {
            match self.source.cur_char() {
                Some(c) => {
                    if ident_char(c) {
                        let ghost pos = self.position();
                        push_char(&mut id, c);
                        self.source.advance();
                        proof {
                            assert(id@ =~= s.subrange(start, pos + 1));
                        }
                    } else {
                        proof {
                            assert(ident_run_end(s, self.position()) == self.position());
                        }
                        return id;
                    }
                },
                None => {
                    proof {
                        assert(ident_run_end(s, self.position()) == self.position());
                    }
                    return id;
                },
            }
        }
    }

    /// Produces the next token, or `None` when only whitespace remains.
    /// Once the text is exhausted it keeps producing `None`.
    pub fn next_token(&mut self) -> (t: Option<Token>)
        requires
            old(self).wf(),
        ensures
            final(self).wf(),
            final(self).chars() == old(self).chars(),
            scan_token(old(self).chars(), old(self).position()) is None ==> t is None
                && final(self).position() == skip_ws(old(self).chars(), old(self).position()),
            scan_token(old(self).chars(), old(self).position()) matches Some((st, j)) ==> (
            t matches Some(tok) && tok@ == st && final(self).position() == j),
    {
        self.skip_whitespace();
        match self.source.cur_char() {
            None => None,
            Some(c) => {
                if c == '(' {
                    self.source.advance();
                    Some(Token::OpenParenthesis)
                } else if c == ')' {
                    self.source.advance();
                    Some(Token::CloseParenthesis)
                } else if digit_char(c) {
                    Some(Token::Number(self.read_number(false)))
                } else if c == '-' {
                    self.source.advance();
                    let next = self.source.cur_char();
                    let digit_follows = match next {
                        Some(d) => digit_char(d),
                        None => false,
                    };
                    if digit_follows {
                        Some(Token::Number(self.read_number(true)))
                    } else {
                        let mut name = String::new();
                        push_char(&mut name, '-');
                        proof {
                            assert(name@ =~= seq!['-']);
                        }
                        Some(Token::Identifier(name))
                    }
                } else {
                    Some(Token::Identifier(self.read_identifier()))
                }
            },
        }
    }
}

} // verus!
