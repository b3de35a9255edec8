//! The evaluator: reduces an expression tree to one value against a table
//! of named variadic operations. Arguments are evaluated left to right,
//! each fully independently; then the operator name is looked up, and the
//! table's reducer folds the argument values into one result.
//!
//! The canonical built-in table, and the conventions this library fixes:
//! `+` folds addition from zero (so `(+)` is `0` and `(+ 5)` is `5`);
//! `*` folds multiplication from one (so `(*)` is `1`);
//! `-` folds subtraction from the first argument (so `(-)` is `0`,
//! `(- 5)` is `5`, and `(- 10 3 2)` is `5`);
//! `/` divides the first argument by each of the rest (so `(/)` is `0` and
//! `(/ 5)` is `5`);
//! `pi` and `e` are constants — the exact rational value of the closest
//! double-precision approximation — and ignore any arguments supplied.

use vstd::prelude::*;
use vstd::map::*;

use crate::numeral::{digits_val, SpecNumeral};
use crate::parser::{
    lemma_size_all_ge, lemma_view_exprs, size, size_all, spec_parse, view_expr, view_exprs, Expr,
    ParseError, Parser, SpecExpr, SpecParseError,
};
use crate::value::{
    add_values, div_values, mul_values, numeral_value, sub_values, wf_value, Value,
};

verus! {

/// One of the four folding steps a reducer can take.
#[derive(Debug, Clone, Copy, PartialEq, Eq, Structural)]
pub enum BinOp {
    Add,
    Sub,
    Mul,
    Div,
}

/// The step `op` takes from the running value with the next argument.
pub open spec fn apply_bin(op: BinOp, a: Value, b: Value) -> Option<Value> {
    match op {
        BinOp::Add => add_values(a, b),
        BinOp::Sub => sub_values(a, b),
        BinOp::Mul => mul_values(a, b),
        BinOp::Div => div_values(a, b),
    }
}

/// Folds `op` over the values, left to right, from the running value
/// `acc`; `None` when a step's exact result is out of range.
pub open spec fn fold_from(op: BinOp, acc: Value, vals: Seq<Value>) -> Option<Value>
    decreases vals.len(),
{
    if vals.len() == 0 {
        Some(acc)
    } else {
        match apply_bin(op, acc, vals[0]) {
            None => None,
            Some(acc2) => fold_from(op, acc2, vals.drop_first()),
        }
    }
}

/// A reducer: the semantics a table entry gives an operator name. Each
/// consumes the ordered argument values and yields one value.
#[derive(Debug, Clone, Copy, PartialEq, Eq, Structural)]
pub enum Reducer {
    /// Addition folded from zero.
    Sum,
    /// Subtraction folded from the first argument; zero with no arguments.
    Difference,
    /// Multiplication folded from one.
    Product,
    /// The first argument divided by each of the rest; zero with no
    /// arguments.
    Quotient,
    /// A fixed value, whatever the arguments.
    Constant(Value),
}

/// What a reducer makes of the argument values; `None` when an exact
/// intermediate result is out of range.
pub open spec fn apply_reducer(r: Reducer, vals: Seq<Value>) -> Option<Value> {
    match r {
        Reducer::Sum => fold_from(BinOp::Add, Value::Finite { num: 0, den: 1 }, vals),
        Reducer::Difference => if vals.len() == 0 {
            Some(Value::Finite { num: 0, den: 1 })
        } else {
            fold_from(BinOp::Sub, vals[0], vals.drop_first())
        },
        Reducer::Product => fold_from(BinOp::Mul, Value::Finite { num: 1, den: 1 }, vals),
        Reducer::Quotient => if vals.len() == 0 {
            Some(Value::Finite { num: 0, den: 1 })
        } else {
            fold_from(BinOp::Div, vals[0], vals.drop_first())
        },
        Reducer::Constant(v) => Some(v),
    }
}

/// Every value in the sequence is well formed.
pub open spec fn all_wf_values(vals: Seq<Value>) -> bool {
    forall|k: int| 0 <= k < vals.len() ==> wf_value(vals[k])
}

/// A reducer is well formed when the value a constant carries is.
pub open spec fn wf_reducer(r: Reducer) -> bool {
    r matches Reducer::Constant(v) ==> wf_value(v)
}

/// Every reducer in the table is well formed.
pub open spec fn wf_table(t: Map<Seq<char>, Reducer>) -> bool {
    forall|name: Seq<char>| t.dom().contains(name) ==> wf_reducer(#[trigger] t[name])
}

/// One folding step, executed.
fn bin(op: BinOp, a: Value, b: Value) -> (r: Option<Value>)
    requires
        wf_value(a),
        wf_value(b),
    ensures
        r == apply_bin(op, a, b),
        r matches Some(v) ==> wf_value(v),
{
    match op {
        BinOp::Add => a.add(b),
        BinOp::Sub => a.sub(b),
        BinOp::Mul => a.mul(b),
        BinOp::Div => a.div(b),
    }
}

/// Folds `op` over the values from `start` on, beginning at `init`.
fn fold_values(op: BinOp, init: Value, vals: &Vec<Value>, start: usize) -> (r: Option<Value>)
    requires
        wf_value(init),
        all_wf_values(vals@),
        start <= vals@.len(),
    ensures
        r == fold_from(op, init, vals@.skip(start as int)),
        r matches Some(v) ==> wf_value(v),
{
    let mut acc = init;
    let mut i = start;
    while i < vals.len()
        invariant
            start <= i <= vals@.len(),
            wf_value(acc),
            all_wf_values(vals@),
            fold_from(op, acc, vals@.skip(i as int)) == fold_from(
                op,
                init,
                vals@.skip(start as int),
            ),
        decreases vals@.len() - i,
    {
        proof {
            assert(vals@.skip(i as int)[0] == vals@[i as int]);
            assert(vals@.skip(i as int).drop_first() =~= vals@.skip(i + 1 as int));
        }
        match bin(op, acc, vals[i]) {
            None => {
                return None;
            },
            Some(acc2) => {
                acc = acc2;
            },
        }
        i = i + 1;
    }
    proof {
        assert(vals@.skip(i as int) =~= Seq::<Value>::empty());
    }
    Some(acc)
}

/// Applies a reducer to the argument values, executed.
fn apply(r: Reducer, vals: &Vec<Value>) -> (res: Option<Value>)
    requires
        wf_reducer(r),
        all_wf_values(vals@),
    ensures
        res == apply_reducer(r, vals@),
        res matches Some(v) ==> wf_value(v),
{
    proof {
        assert(vals@.skip(0) =~= vals@);
    }
    match r {
        Reducer::Sum => fold_values(BinOp::Add, Value::integer(0), vals, 0),
        Reducer::Difference => {
            if vals.len() == 0 {
                Some(Value::integer(0))
            } else {
                proof {
                    assert(vals@.skip(1) =~= vals@.drop_first());
                }
                fold_values(BinOp::Sub, vals[0], vals, 1)
            }
        },
        Reducer::Product => fold_values(BinOp::Mul, Value::integer(1), vals, 0),
        Reducer::Quotient => {
            if vals.len() == 0 {
                Some(Value::integer(0))
            } else {
                proof {
                    assert(vals@.skip(1) =~= vals@.drop_first());
                }
                fold_values(BinOp::Div, vals[0], vals, 1)
            }
        },
        Reducer::Constant(v) => Some(v),
    }
}

/// An evaluation error: the operator is not in the table, or an exact
/// result no longer fits the machine word.
#[derive(Debug, PartialEq, Clone)]
pub enum EvalError {
    /// The named operator is not in the function table.
    UnknownOperator(String),
    /// An exact numerator or denominator no longer fits the machine word.
    ValueOutOfRange,
}

/// The mathematical content of an `EvalError`.
pub enum SpecEvalError {
    UnknownOperator(Seq<char>),
    ValueOutOfRange,
}

impl View for EvalError {
    type V = SpecEvalError;

    open spec fn view(&self) -> SpecEvalError {
        match self {
            EvalError::UnknownOperator(name) => SpecEvalError::UnknownOperator(name@),
            EvalError::ValueOutOfRange => SpecEvalError::ValueOutOfRange,
        }
    }
}

/// The function table: a read-only mapping from operator name to reducer,
/// constructed once before evaluation. Registering a name shadows any
/// earlier entry for it, so each name has one meaning: the view is the
/// mapping itself.
pub struct FnTable {
    pub entries: Vec<(String, Reducer)>,
}

/// The mapping a list of entries denotes; an earlier entry wins over a
/// later one with the same name.
pub open spec fn table_view(entries: Seq<(String, Reducer)>) -> Map<Seq<char>, Reducer>
    decreases entries.len(),
{
    if entries.len() == 0 {
        Map::empty()
    } else {
        table_view(entries.drop_first()).insert(entries[0].0@, entries[0].1)
    }
}

impl View for FnTable {
    type V = Map<Seq<char>, Reducer>;

    open spec fn view(&self) -> Map<Seq<char>, Reducer> {
        table_view(self.entries@)
    }
}

impl FnTable {
    /// The empty table.
    pub fn new() -> (t: FnTable)
        ensures
            t@ == Map::<Seq<char>, Reducer>::empty(),
            wf_table(t@),
    {
        FnTable { entries: Vec::new() }
    }

    /// Gives `name` the meaning `reducer`, shadowing any earlier entry.
    pub fn register(&mut self, name: String, reducer: Reducer)
        requires
            wf_reducer(reducer),
        ensures
            final(self)@ == old(self)@.insert(name@, reducer),
            wf_table(old(self)@) ==> wf_table(final(self)@),
    {
        self.entries.insert(0, (name, reducer));
        proof {
            assert(self.entries@.drop_first() =~= old(self).entries@);
        }
    }

    /// The reducer registered for `name`, if any.
    pub fn lookup(&self, name: &String) -> (r: Option<Reducer>)
        ensures
            self@.dom().contains(name@) ==> r == Some(self@[name@]),
            !self@.dom().contains(name@) ==> r is None,
    {
        let ghost full = self.entries@;
        let mut i: usize = 0;
        proof {
            assert(full.skip(0) =~= full);
        }
        while i < self.entries.len()
            invariant
                full == self.entries@,
                0 <= i <= full.len(),
                table_view(full).dom().contains(name@) == table_view(full.skip(i as int)).dom()
                    .contains(name@),
                table_view(full).dom().contains(name@) ==> table_view(full)[name@] == table_view(
                    full.skip(i as int),
                )[name@],
            decreases full.len() - i,
        {
            proof {
                assert(full.skip(i as int)[0] == full[i as int]);
                assert(full.skip(i as int).drop_first() =~= full.skip(i + 1 as int));
            }
            if self.entries[i].0 == *name {
                return Some(self.entries[i].1);
            }
            i = i + 1;
        }
        proof {
            assert(full.skip(i as int) =~= Seq::<(String, Reducer)>::empty());
        }
        None
    }
}

/// The value of `pi` as this library ships it: the exact rational value of
/// the closest double-precision approximation of the circle constant.
pub open spec fn pi_value() -> Value {
    Value::Finite { num: 884279719003555, den: 281474976710656 }
}

/// The value of `e` as this library ships it: the exact rational value of
/// the closest double-precision approximation of the natural base.
pub open spec fn e_value() -> Value {
    Value::Finite { num: 6121026514868073, den: 2251799813685248 }
}

/// The canonical built-in table.
pub open spec fn builtin_table() -> Map<Seq<char>, Reducer> {
    Map::empty()
        .insert("e"@, Reducer::Constant(e_value()))
        .insert("pi"@, Reducer::Constant(pi_value()))
        .insert("/"@, Reducer::Quotient)
        .insert("*"@, Reducer::Product)
        .insert("-"@, Reducer::Difference)
        .insert("+"@, Reducer::Sum)
}

impl FnTable {
    /// Builds the canonical built-in table.
    pub fn builtin() -> (t: FnTable)
        ensures
            t@ == builtin_table(),
            wf_table(t@),
    {
        let mut t = FnTable::new();
        t.register(String::from_str("e"), Reducer::Constant(Value::Finite {
            num: 6121026514868073,
            den: 2251799813685248,
        }));
        t.register(String::from_str("pi"), Reducer::Constant(Value::Finite {
            num: 884279719003555,
            den: 281474976710656,
        }));
        t.register(String::from_str("/"), Reducer::Quotient);
        t.register(String::from_str("*"), Reducer::Product);
        t.register(String::from_str("-"), Reducer::Difference);
        t.register(String::from_str("+"), Reducer::Sum);
        t
    }
}

/// What evaluating a tree yields: the number it denotes, or the first
/// error met — arguments are evaluated left to right, and the operator is
/// looked up after them.
pub open spec fn spec_eval(e: SpecExpr, table: Map<Seq<char>, Reducer>) -> Result<
    Value,
    SpecEvalError,
>
    decreases e,
{
    match e {
        SpecExpr::Number(n) => match numeral_value(n) {
            Some(v) => Ok(v),
            None => Err(SpecEvalError::ValueOutOfRange),
        },
        SpecExpr::Call { op, args } => match spec_eval_args(args, table) {
            Err(err) => Err(err),
            Ok(vals) => if table.dom().contains(op) {
                match apply_reducer(table[op], vals) {
                    Some(v) => Ok(v),
                    None => Err(SpecEvalError::ValueOutOfRange),
                }
            } else {
                Err(SpecEvalError::UnknownOperator(op))
            },
        },
    }
}

/// The values of a sequence of argument trees, or the first error met.
pub open spec fn spec_eval_args(es: Seq<SpecExpr>, table: Map<Seq<char>, Reducer>) -> Result<
    Seq<Value>,
    SpecEvalError,
>
    decreases es,
{
    if es.len() == 0 {
        Ok(Seq::empty())
    } else {
        match spec_eval(es[0], table) {
            Err(err) => Err(err),
            Ok(v) => match spec_eval_args(es.drop_first(), table) {
                Err(err) => Err(err),
                Ok(vs) => Ok(seq![v] + vs),
            },
        }
    }
}

/// Evaluates a tree against a table, executed: exactly `spec_eval`.
pub fn eval_expr(e: &Expr, table: &FnTable) -> (r: Result<Value, EvalError>)
    requires
        wf_table(table@),
    ensures
        spec_eval(e@, table@) matches Ok(v) ==> r == Ok::<Value, EvalError>(v) && wf_value(v),
        spec_eval(e@, table@) matches Err(se) ==> (r matches Err(err) && err@ == se),
    decreases size(e@),
{
    match e {
        Expr::Number(num) => match Value::from_numeral(num) {
            Some(v) => Ok(v),
            None => Err(EvalError::ValueOutOfRange),
        },
        Expr::FnExprPtr(f) => {
            let ghost argviews = view_exprs(f.args@);
            proof {
                lemma_view_exprs(f.args@);
            }
            let mut vals: Vec<Value> = Vec::new();
            let mut i: usize = 0;
            proof {
                assert(argviews.skip(0) =~= argviews);
                match spec_eval_args(argviews, table@) {
                    Ok(vs) => {
                        assert(vals@ + vs =~= vs);
                    },
                    Err(_) => {},
                }
            }
            while i < f.args.len()
                invariant
                    wf_table(table@),
                    e@ == (SpecExpr::Call { op: f.op@, args: argviews }),
                    size(e@) == 1 + size_all(argviews),
                    argviews == view_exprs(f.args@),
                    argviews.len() == f.args@.len(),
                    forall|k: int| 0 <= k < f.args@.len() ==> argviews[k] == view_expr(f.args@[k]),
                    0 <= i <= f.args@.len(),
                    all_wf_values(vals@),
                    spec_eval_args(argviews, table@) == match spec_eval_args(
                        argviews.skip(i as int),
                        table@,
                    ) {
                        Ok(vs) => Ok::<Seq<Value>, SpecEvalError>(vals@ + vs),
                        Err(err) => Err::<Seq<Value>, SpecEvalError>(err),
                    },
                decreases f.args@.len() - i,
            {
                proof {
                    assert(argviews.skip(i as int)[0] == argviews[i as int]);
                    assert(argviews.skip(i as int).drop_first() =~= argviews.skip(i + 1 as int));
                    lemma_size_all_ge(argviews, i as int);
                }
                match eval_expr(&f.args[i], table) {
                    Err(err) => {
                        return Err(err);
                    },
                    Ok(v) => {
                        let ghost vals0 = vals@;
                        vals.push(v);
                        proof {
                            match spec_eval_args(argviews.skip(i + 1 as int), table@) {
                                Ok(vs) => {
                                    assert(vals0 + (seq![v] + vs) =~= vals@ + vs);
                                },
                                Err(_) => {},
                            }
                        }
                    },
                }
                i = i + 1;
            }
            proof {
                assert(argviews.skip(i as int) =~= Seq::<SpecExpr>::empty());
                assert(spec_eval_args(argviews.skip(i as int), table@) == Ok::<
                    Seq<Value>,
                    SpecEvalError,
                >(Seq::empty()));
                match spec_eval_args(argviews, table@) {
                    Ok(vs) => {
                        assert(vals@ + Seq::<Value>::empty() =~= vals@);
                        assert(vs == vals@);
                    },
                    Err(_) => {},
                }
            }
            match table.lookup(&f.op.0) {
                None => Err(EvalError::UnknownOperator(f.op.0.clone())),
                Some(red) => match apply(red, &vals) {
                    Some(v) => Ok(v),
                    None => Err(EvalError::ValueOutOfRange),
                },
            }
        },
    }
}

/// A failure of the whole pipeline: a syntax error from the parser, or an
/// evaluation error from the tree walk.
#[derive(Debug, PartialEq, Clone)]
pub enum CalcError {
    Syntax(ParseError),
    Eval(EvalError),
}

/// The mathematical content of a `CalcError`.
pub enum SpecCalcError {
    Syntax(SpecParseError),
    Eval(SpecEvalError),
}

impl View for CalcError {
    type V = SpecCalcError;

    open spec fn view(&self) -> SpecCalcError {
        match self {
            CalcError::Syntax(e) => SpecCalcError::Syntax(e@),
            CalcError::Eval(e) => SpecCalcError::Eval(e@),
        }
    }
}

/// What `eval` yields on a line of text: the first expression parsed from
/// it, evaluated against the canonical built-in table.
pub open spec fn spec_eval_source(s: Seq<char>) -> Result<Value, SpecCalcError> {
    match spec_parse(s) {
        Err(pe) => Err(SpecCalcError::Syntax(pe)),
        Ok((e, _)) => match spec_eval(e, builtin_table()) {
            Ok(v) => Ok(v),
            Err(ee) => Err(SpecCalcError::Eval(ee)),
        },
    }
}

/// Parses one expression from the text and evaluates it against the
/// canonical built-in table.
pub fn eval(source: &str) -> (r: Result<Value, CalcError>)
    ensures
        spec_eval_source(source@) matches Ok(v) ==> r == Ok::<Value, CalcError>(v) && wf_value(v),
        spec_eval_source(source@) matches Err(se) ==> (r matches Err(err) && err@ == se),
{
    let mut parser = Parser::new(source);
    match parser.parse_expression() {
        Err(pe) => Err(CalcError::Syntax(pe)),
        Ok(expr) => {
            let table = FnTable::builtin();
            match eval_expr(&expr, &table) {
                Ok(v) => Ok(v),
                Err(ee) => Err(CalcError::Eval(ee)),
            }
        },
    }
}

/// Evaluating a call is compositional: its result is determined by the
/// operator name and the values of its argument subtrees alone — evaluate
/// the arguments, look the operator up, apply its reducer.
pub proof fn lemma_eval_compositional(
    op: Seq<char>,
    args: Seq<SpecExpr>,
    table: Map<Seq<char>, Reducer>,
)
    ensures
        spec_eval(SpecExpr::Call { op, args }, table) == (match spec_eval_args(args, table) {
            Err(err) => Err::<Value, SpecEvalError>(err),
            Ok(vals) => if table.dom().contains(op) {
                match apply_reducer(table[op], vals) {
                    Some(v) => Ok::<Value, SpecEvalError>(v),
                    None => Err::<Value, SpecEvalError>(SpecEvalError::ValueOutOfRange),
                }
            } else {
                Err::<Value, SpecEvalError>(SpecEvalError::UnknownOperator(op))
            },
        }),
{
}

/// Each argument is evaluated fully independently: when an argument list
/// evaluates, every argument tree evaluates on its own to the matching
/// value.
pub proof fn lemma_eval_args_pointwise(es: Seq<SpecExpr>, table: Map<Seq<char>, Reducer>)
    ensures
        spec_eval_args(es, table) matches Ok(vals) ==> vals.len() == es.len() && (forall|k: int|
            0 <= k < es.len() ==> spec_eval(#[trigger] es[k], table) == Ok::<Value, SpecEvalError>(
                vals[k],
            )),
    decreases es,
{
    if es.len() > 0 {
        lemma_eval_args_pointwise(es.drop_first(), table);
        match spec_eval_args(es, table) {
            Ok(vals) => {
                match spec_eval_args(es.drop_first(), table) {
                    Ok(vs) => {
                        assert forall|k: int| 0 <= k < es.len() implies spec_eval(
                            #[trigger] es[k],
                            table,
                        ) == Ok::<Value, SpecEvalError>(vals[k]) by {
                            if k > 0 {
                                assert(es[k] == es.drop_first()[k - 1]);
                                assert(vals[k] == vs[k - 1]);
                            }
                        }
                    },
                    Err(_) => {},
                }
            },
            Err(_) => {},
        }
    }
}

/// The value of a whole-number literal.
proof fn lemma_integer_numeral(n: SpecNumeral)
    requires
        !n.negative,
        n.frac_digits.len() == 0,
        digits_val(n.int_digits) <= i64::MAX,
    ensures
        numeral_value(n) == Some(Value::Finite { num: digits_val(n.int_digits) as i64, den: 1 }),
{
    assert(n.int_digits + n.frac_digits =~= n.int_digits);
    crate::numeral::lemma_digits_val_nonneg(n.int_digits);
}

/// For all non-negative whole-number literals `a` and `b` whose exact sum
/// fits the machine word, evaluating `(+ a b)` against the built-in table
/// yields exactly `a + b` — the whole number over one, no rounding.
#[verifier::rlimit(50)]
pub proof fn lemma_eval_addition(na: SpecNumeral, nb: SpecNumeral)
    requires
        !na.negative,
        na.frac_digits.len() == 0,
        !nb.negative,
        nb.frac_digits.len() == 0,
        digits_val(na.int_digits) + digits_val(nb.int_digits) <= i64::MAX,
    ensures
        spec_eval(
            SpecExpr::Call {
                op: "+"@,
                args: seq![SpecExpr::Number(na), SpecExpr::Number(nb)],
            },
            builtin_table(),
        ) == Ok::<Value, SpecEvalError>(
            Value::Finite {
                num: (digits_val(na.int_digits) + digits_val(nb.int_digits)) as i64,
                den: 1,
            },
        ),
{
    reveal_with_fuel(spec_eval_args, 4);
    reveal_with_fuel(fold_from, 4);
    let va = digits_val(na.int_digits);
    let vb = digits_val(nb.int_digits);
    crate::numeral::lemma_digits_val_nonneg(na.int_digits);
    crate::numeral::lemma_digits_val_nonneg(nb.int_digits);
    lemma_integer_numeral(na);
    lemma_integer_numeral(nb);
    let fa = Value::Finite { num: va as i64, den: 1 };
    let fb = Value::Finite { num: vb as i64, den: 1 };
    let args = seq![SpecExpr::Number(na), SpecExpr::Number(nb)];
    assert(args.drop_first() =~= seq![SpecExpr::Number(nb)]);
    assert(args.drop_first().drop_first() =~= Seq::<SpecExpr>::empty());
    assert(spec_eval_args(args, builtin_table()) == Ok::<Seq<Value>, SpecEvalError>(
        seq![fa] + (seq![fb] + Seq::<Value>::empty()),
    ));
    let vals = seq![fa] + (seq![fb] + Seq::<Value>::empty());
    assert(vals =~= seq![fa, fb]);
    assert(builtin_table()["+"@] == Reducer::Sum);
    let zero = Value::Finite { num: 0, den: 1 };
    assert(add_values(zero, fa) == crate::value::fin(
        0 * (1 as int) + (va as i64) * (1 as int),
        1 * (1 as int),
    ));
    assert(0 * (1 as int) + (va as i64) * (1 as int) == va);
    assert(add_values(zero, fa) == Some(fa));
    assert(vals.drop_first() =~= seq![fb]);
    assert(add_values(fa, fb) == Some(Value::Finite { num: (va + vb) as i64, den: 1 }));
    assert(seq![fb].drop_first() =~= Seq::<Value>::empty());
    assert(apply_reducer(Reducer::Sum, vals) == Some(
        Value::Finite { num: (va + vb) as i64, den: 1 },
    ));
}

/// For all non-negative whole-number literals `a` and `b` whose exact
/// product fits the machine word, evaluating `(* a b)` against the
/// built-in table yields exactly `a * b`.
#[verifier::rlimit(50)]
pub proof fn lemma_eval_multiplication(na: SpecNumeral, nb: SpecNumeral)
    requires
        !na.negative,
        na.frac_digits.len() == 0,
        !nb.negative,
        nb.frac_digits.len() == 0,
        digits_val(na.int_digits) <= i64::MAX,
        digits_val(nb.int_digits) <= i64::MAX,
        digits_val(na.int_digits) * digits_val(nb.int_digits) <= i64::MAX,
    ensures
        spec_eval(
            SpecExpr::Call {
                op: "*"@,
                args: seq![SpecExpr::Number(na), SpecExpr::Number(nb)],
            },
            builtin_table(),
        ) == Ok::<Value, SpecEvalError>(
            Value::Finite {
                num: (digits_val(na.int_digits) * digits_val(nb.int_digits)) as i64,
                den: 1,
            },
        ),
{
    let va = digits_val(na.int_digits);
    let vb = digits_val(nb.int_digits);
    crate::numeral::lemma_digits_val_nonneg(na.int_digits);
    crate::numeral::lemma_digits_val_nonneg(nb.int_digits);
    assert(va * vb >= 0) by (nonlinear_arith)
        requires
            va >= 0,
            vb >= 0,
    ;
    reveal_with_fuel(spec_eval_args, 4);
    reveal_with_fuel(fold_from, 4);
    lemma_integer_numeral(na);
    lemma_integer_numeral(nb);
    let fa = Value::Finite { num: va as i64, den: 1 };
    let fb = Value::Finite { num: vb as i64, den: 1 };
    let args = seq![SpecExpr::Number(na), SpecExpr::Number(nb)];
    assert(args.drop_first() =~= seq![SpecExpr::Number(nb)]);
    assert(args.drop_first().drop_first() =~= Seq::<SpecExpr>::empty());
    let vals = seq![fa] + (seq![fb] + Seq::<Value>::empty());
    assert(spec_eval_args(args, builtin_table()) == Ok::<Seq<Value>, SpecEvalError>(vals));
    assert(vals =~= seq![fa, fb]);
    assert(builtin_table()["*"@] == Reducer::Product) by {
        reveal_strlit("*");
        reveal_strlit("+");
        reveal_strlit("-");
        assert("*"@ != "+"@) by {
            assert("*"@[0] == '*');
            assert("+"@[0] == '+');
        }
        assert("*"@ != "-"@) by {
            assert("*"@[0] == '*');
            assert("-"@[0] == '-');
        }
    }
    let one = Value::Finite { num: 1, den: 1 };
    assert(mul_values(one, fa) == Some(fa));
    assert(vals.drop_first() =~= seq![fb]);
    assert(mul_values(fa, fb) == Some(Value::Finite { num: (va * vb) as i64, den: 1 }));
    assert(seq![fb].drop_first() =~= Seq::<Value>::empty());
    assert(apply_reducer(Reducer::Product, vals) == Some(
        Value::Finite { num: (va * vb) as i64, den: 1 },
    ));
}

/// For all non-negative whole-number literals `a` and `b`, evaluating
/// `(- a b)` against the built-in table yields exactly `a - b` (the
/// difference fits whenever both literals do).
#[verifier::rlimit(50)]
pub proof fn lemma_eval_subtraction(na: SpecNumeral, nb: SpecNumeral)
    requires
        !na.negative,
        na.frac_digits.len() == 0,
        !nb.negative,
        nb.frac_digits.len() == 0,
        digits_val(na.int_digits) <= i64::MAX,
        digits_val(nb.int_digits) <= i64::MAX,
    ensures
        spec_eval(
            SpecExpr::Call {
                op: "-"@,
                args: seq![SpecExpr::Number(na), SpecExpr::Number(nb)],
            },
            builtin_table(),
        ) == Ok::<Value, SpecEvalError>(
            Value::Finite {
                num: (digits_val(na.int_digits) - digits_val(nb.int_digits)) as i64,
                den: 1,
            },
        ),
{
    reveal_with_fuel(spec_eval_args, 4);
    reveal_with_fuel(fold_from, 4);
    let va = digits_val(na.int_digits);
    let vb = digits_val(nb.int_digits);
    crate::numeral::lemma_digits_val_nonneg(na.int_digits);
    crate::numeral::lemma_digits_val_nonneg(nb.int_digits);
    lemma_integer_numeral(na);
    lemma_integer_numeral(nb);
    let fa = Value::Finite { num: va as i64, den: 1 };
    let fb = Value::Finite { num: vb as i64, den: 1 };
    let args = seq![SpecExpr::Number(na), SpecExpr::Number(nb)];
    assert(args.drop_first() =~= seq![SpecExpr::Number(nb)]);
    assert(args.drop_first().drop_first() =~= Seq::<SpecExpr>::empty());
    let vals = seq![fa] + (seq![fb] + Seq::<Value>::empty());
    assert(spec_eval_args(args, builtin_table()) == Ok::<Seq<Value>, SpecEvalError>(vals));
    assert(vals =~= seq![fa, fb]);
    assert(builtin_table()["-"@] == Reducer::Difference) by {
        reveal_strlit("-");
        reveal_strlit("+");
        assert("-"@ != "+"@) by {
            assert("-"@[0] == '-');
            assert("+"@[0] == '+');
        }
    }
    assert(vals[0] == fa);
    assert(vals.drop_first() =~= seq![fb]);
    assert(sub_values(fa, fb) == crate::value::fin(
        (va as i64) * (1 as int) - (vb as i64) * (1 as int),
        1 * (1 as int),
    ));
    assert((va as i64) * (1 as int) - (vb as i64) * (1 as int) == va - vb);
    assert(sub_values(fa, fb) == Some(Value::Finite { num: (va - vb) as i64, den: 1 }));
    assert(seq![fb].drop_first() =~= Seq::<Value>::empty());
    assert(apply_reducer(Reducer::Difference, vals) == Some(
        Value::Finite { num: (va - vb) as i64, den: 1 },
    ));
}

} // verus!
