//! The numeric domain of the evaluator: exact rationals, extended with two
//! signed infinities and an undefined value so that division by zero is a
//! numeric outcome rather than a failure, following the conventions
//! floating-point arithmetic uses for such cases. A finite value is a
//! numerator over a positive denominator, kept exactly as computed (not
//! reduced); a result whose exact numerator or denominator no longer fits
//! the machine word is out of range, which the evaluator reports as an
//! error rather than rounding.

use vstd::prelude::*;

use crate::numeral::{digits_val, pow10, SpecNumeral, Numeral};

verus! {

/// One number: undefined, an infinity, or an exact fraction `num / den`
/// with `den >= 1`.
#[derive(Debug, Clone, Copy, PartialEq, Eq, Structural)]
pub enum Value {
    Undefined,
    Infinite { negative: bool },
    Finite { num: i64, den: i64 },
}

/// A finite value keeps a positive denominator.
pub open spec fn wf_value(v: Value) -> bool {
    v matches Value::Finite { num, den } ==> den >= 1
}

/// The fraction `num / den` when both parts fit the machine word, with the
/// denominator positive; out of range otherwise.
pub open spec fn fin(num: int, den: int) -> Option<Value>
    recommends
        den >= 1,
{
    if i64::MIN <= num <= i64::MAX && den <= i64::MAX {
        Some(Value::Finite { num: num as i64, den: den as i64 })
    } else {
        None
    }
}

/// Addition. An infinity absorbs any finite value; opposite infinities
/// have no sum and give the undefined value, which itself absorbs
/// everything. `None` means the exact finite result is out of range.
pub open spec fn add_values(a: Value, b: Value) -> Option<Value> {
    match (a, b) {
        (Value::Undefined, _) => Some(Value::Undefined),
        (_, Value::Undefined) => Some(Value::Undefined),
        (Value::Infinite { negative: s }, Value::Infinite { negative: t }) => if s == t {
            Some(Value::Infinite { negative: s })
        } else {
            Some(Value::Undefined)
        },
        (Value::Infinite { negative }, Value::Finite { .. }) => Some(
            Value::Infinite { negative },
        ),
        (Value::Finite { .. }, Value::Infinite { negative }) => Some(
            Value::Infinite { negative },
        ),
        (Value::Finite { num: n1, den: d1 }, Value::Finite { num: n2, den: d2 }) => fin(
            n1 * d2 + n2 * d1,
            d1 * d2,
        ),
    }
}

/// Subtraction: `a - b` mirrors addition with `b` negated.
pub open spec fn sub_values(a: Value, b: Value) -> Option<Value> {
    match (a, b) {
        (Value::Undefined, _) => Some(Value::Undefined),
        (_, Value::Undefined) => Some(Value::Undefined),
        (Value::Infinite { negative: s }, Value::Infinite { negative: t }) => if s == t {
            Some(Value::Undefined)
        } else {
            Some(Value::Infinite { negative: s })
        },
        (Value::Infinite { negative }, Value::Finite { .. }) => Some(
            Value::Infinite { negative },
        ),
        (Value::Finite { .. }, Value::Infinite { negative }) => Some(
            Value::Infinite { negative: !negative },
        ),
        (Value::Finite { num: n1, den: d1 }, Value::Finite { num: n2, den: d2 }) => fin(
            n1 * d2 - n2 * d1,
            d1 * d2,
        ),
    }
}

/// Multiplication. An infinity times zero is undefined; otherwise signs
/// combine.
pub open spec fn mul_values(a: Value, b: Value) -> Option<Value> {
    match (a, b) {
        (Value::Undefined, _) => Some(Value::Undefined),
        (_, Value::Undefined) => Some(Value::Undefined),
        (Value::Infinite { negative: s }, Value::Infinite { negative: t }) => Some(
            Value::Infinite { negative: s != t },
        ),
        (Value::Infinite { negative: s }, Value::Finite { num, .. }) => if num == 0 {
            Some(Value::Undefined)
        } else {
            Some(Value::Infinite { negative: s != (num < 0) })
        },
        (Value::Finite { num, .. }, Value::Infinite { negative: t }) => if num == 0 {
            Some(Value::Undefined)
        } else {
            Some(Value::Infinite { negative: t != (num < 0) })
        },
        (Value::Finite { num: n1, den: d1 }, Value::Finite { num: n2, den: d2 }) => fin(
            n1 * n2,
            d1 * d2,
        ),
    }
}

/// Division. A nonzero finite value over zero is the infinity of the
/// combined sign, zero over zero is undefined, a finite value over an
/// infinity is zero, and an infinity over an infinity is undefined.
pub open spec fn div_values(a: Value, b: Value) -> Option<Value> {
    match (a, b) {
        (Value::Undefined, _) => Some(Value::Undefined),
        (_, Value::Undefined) => Some(Value::Undefined),
        (Value::Infinite { .. }, Value::Infinite { .. }) => Some(Value::Undefined),
        (Value::Infinite { negative: s }, Value::Finite { num, .. }) => Some(
            Value::Infinite { negative: s != (num < 0) },
        ),
        (Value::Finite { .. }, Value::Infinite { .. }) => Some(Value::Finite { num: 0, den: 1 }),
        (Value::Finite { num: n1, den: d1 }, Value::Finite { num: n2, den: d2 }) => if n2 == 0 {
            if n1 > 0 {
                Some(Value::Infinite { negative: false })
            } else if n1 < 0 {
                Some(Value::Infinite { negative: true })
            } else {
                Some(Value::Undefined)
            }
        } else if n2 > 0 {
            fin(n1 * d2, d1 * n2)
        } else {
            fin(-(n1 * d2), -(d1 * n2))
        },
    }
}

/// The product of a value in the machine word's range and a positive one
/// stays well within the doubled word.
proof fn lemma_mul_by_den_fits(n: int, d: int)
    requires
        i64::MIN <= n <= i64::MAX,
        1 <= d <= i64::MAX,
    ensures
        -0x3fffffffffffffff8000000000000000 <= n * d <= 0x3fffffffffffffff8000000000000000,
{
    assert(-0x3fffffffffffffff8000000000000000 <= n * d <= 0x3fffffffffffffff8000000000000000)
        by (nonlinear_arith)
        requires
            -0x8000000000000000 <= n <= 0x7fffffffffffffff,
            1 <= d <= 0x7fffffffffffffff,
    ;
}

/// The product of two values in the machine word's range fits the doubled
/// word.
proof fn lemma_mul_fits(a: int, b: int)
    requires
        i64::MIN <= a <= i64::MAX,
        i64::MIN <= b <= i64::MAX,
    ensures
        -0x40000000000000000000000000000000 <= a * b <= 0x40000000000000000000000000000000,
{
    assert(-0x40000000000000000000000000000000 <= a * b <= 0x40000000000000000000000000000000)
        by (nonlinear_arith)
        requires
            -0x8000000000000000 <= a <= 0x7fffffffffffffff,
            -0x8000000000000000 <= b <= 0x7fffffffffffffff,
    ;
}

/// A positive denominator times a nonzero value keeps the sign of that
/// value, is at least one in magnitude, and fits the doubled word.
proof fn lemma_div_den_fits(d1: int, n2: int)
    requires
        1 <= d1 <= i64::MAX,
        i64::MIN <= n2 <= i64::MAX,
        n2 != 0,
    ensures
        n2 > 0 ==> 1 <= d1 * n2 <= 0x3fffffffffffffff8000000000000000,
        n2 < 0 ==> -0x3fffffffffffffff8000000000000000 <= d1 * n2 <= -1,
{
    assert((n2 > 0 ==> 1 <= d1 * n2 <= 0x3fffffffffffffff8000000000000000) && (n2 < 0
        ==> -0x3fffffffffffffff8000000000000000 <= d1 * n2 <= -1)) by (nonlinear_arith)
        requires
            1 <= d1 <= 0x7fffffffffffffff,
            -0x8000000000000000 <= n2 <= 0x7fffffffffffffff,
            n2 != 0,
    ;
}

/// The product of two positive values in the machine word's range is
/// positive and fits the doubled word.
proof fn lemma_den_mul_fits(d1: int, d2: int)
    requires
        1 <= d1 <= i64::MAX,
        1 <= d2 <= i64::MAX,
    ensures
        1 <= d1 * d2 <= 0x3fffffffffffffff0000000000000001,
{
    assert(1 <= d1 * d2 <= 0x3fffffffffffffff0000000000000001) by (nonlinear_arith)
        requires
            1 <= d1 <= 0x7fffffffffffffff,
            1 <= d2 <= 0x7fffffffffffffff,
    ;
}

/// Builds the fraction `n / d` when it fits the machine word.
fn make_fin(n: i128, d: i128) -> (r: Option<Value>)
    requires
        d >= 1,
    ensures
        r == fin(n as int, d as int),
        r matches Some(v) ==> wf_value(v),
{
    if i64::MIN as i128 <= n && n <= i64::MAX as i128 && d <= i64::MAX as i128 {
        Some(Value::Finite { num: n as i64, den: d as i64 })
    } else {
        None
    }
}

impl Value {
    /// The whole number `n`.
    pub fn integer(n: i64) -> (v: Value)
        ensures
            v == (Value::Finite { num: n, den: 1 }),
            wf_value(v),
    {
        Value::Finite { num: n, den: 1 }
    }

    /// The sum, or `None` when the exact result is out of range.
    pub fn add(self, other: Value) -> (r: Option<Value>)
        requires
            wf_value(self),
            wf_value(other),
        ensures
            r == add_values(self, other),
            r matches Some(v) ==> wf_value(v),
    {
        match (self, other) {
            (Value::Undefined, _) => Some(Value::Undefined),
            (_, Value::Undefined) => Some(Value::Undefined),
            (Value::Infinite { negative: s }, Value::Infinite { negative: t }) => if s == t {
                Some(Value::Infinite { negative: s })
            } else {
                Some(Value::Undefined)
            },
            (Value::Infinite { negative }, Value::Finite { .. }) => Some(
                Value::Infinite { negative },
            ),
            (Value::Finite { .. }, Value::Infinite { negative }) => Some(
                Value::Infinite { negative },
            ),
            (Value::Finite { num: n1, den: d1 }, Value::Finite { num: n2, den: d2 }) => {
                proof {
                    lemma_mul_by_den_fits(n1 as int, d2 as int);
                    lemma_mul_by_den_fits(n2 as int, d1 as int);
                    lemma_den_mul_fits(d1 as int, d2 as int);
                }
                let n = n1 as i128 * d2 as i128 + n2 as i128 * d1 as i128;
                let d = d1 as i128 * d2 as i128;
                make_fin(n, d)
            },
        }
    }

    /// The difference, or `None` when the exact result is out of range.
    pub fn sub(self, other: Value) -> (r: Option<Value>)
        requires
            wf_value(self),
            wf_value(other),
        ensures
            r == sub_values(self, other),
            r matches Some(v) ==> wf_value(v),
    {
        match (self, other) {
            (Value::Undefined, _) => Some(Value::Undefined),
            (_, Value::Undefined) => Some(Value::Undefined),
            (Value::Infinite { negative: s }, Value::Infinite { negative: t }) => if s == t {
                Some(Value::Undefined)
            } else {
                Some(Value::Infinite { negative: s })
            },
            (Value::Infinite { negative }, Value::Finite { .. }) => Some(
                Value::Infinite { negative },
            ),
            (Value::Finite { .. }, Value::Infinite { negative }) => Some(
                Value::Infinite { negative: !negative },
            ),
            (Value::Finite { num: n1, den: d1 }, Value::Finite { num: n2, den: d2 }) => {
                proof {
                    lemma_mul_by_den_fits(n1 as int, d2 as int);
                    lemma_mul_by_den_fits(n2 as int, d1 as int);
                    lemma_den_mul_fits(d1 as int, d2 as int);
                }
                let n = n1 as i128 * d2 as i128 - n2 as i128 * d1 as i128;
                let d = d1 as i128 * d2 as i128;
                make_fin(n, d)
            },
        }
    }

    /// The product, or `None` when the exact result is out of range.
    pub fn mul(self, other: Value) -> (r: Option<Value>)
        requires
            wf_value(self),
            wf_value(other),
        ensures
            r == mul_values(self, other),
            r matches Some(v) ==> wf_value(v),
    {
        match (self, other) {
            (Value::Undefined, _) => Some(Value::Undefined),
            (_, Value::Undefined) => Some(Value::Undefined),
            (Value::Infinite { negative: s }, Value::Infinite { negative: t }) => Some(
                Value::Infinite { negative: s != t },
            ),
            (Value::Infinite { negative: s }, Value::Finite { num, .. }) => if num == 0 {
                Some(Value::Undefined)
            } else {
                Some(Value::Infinite { negative: s != (num < 0) })
            },
            (Value::Finite { num, .. }, Value::Infinite { negative: t }) => if num == 0 {
                Some(Value::Undefined)
            } else {
                Some(Value::Infinite { negative: t != (num < 0) })
            },
            (Value::Finite { num: n1, den: d1 }, Value::Finite { num: n2, den: d2 }) => {
                proof {
                    lemma_mul_fits(n1 as int, n2 as int);
                    lemma_den_mul_fits(d1 as int, d2 as int);
                }
                let n = n1 as i128 * n2 as i128;
                let d = d1 as i128 * d2 as i128;
                make_fin(n, d)
            },
        }
    }

    /// The quotient, or `None` when the exact result is out of range.
    pub fn div(self, other: Value) -> (r: Option<Value>)
        requires
            wf_value(self),
            wf_value(other),
        ensures
            r == div_values(self, other),
            r matches Some(v) ==> wf_value(v),
    {
        match (self, other) {
            (Value::Undefined, _) => Some(Value::Undefined),
            (_, Value::Undefined) => Some(Value::Undefined),
            (Value::Infinite { .. }, Value::Infinite { .. }) => Some(Value::Undefined),
            (Value::Infinite { negative: s }, Value::Finite { num, .. }) => Some(
                Value::Infinite { negative: s != (num < 0) },
            ),
            (Value::Finite { .. }, Value::Infinite { .. }) => Some(
                Value::Finite { num: 0, den: 1 },
            ),
            (Value::Finite { num: n1, den: d1 }, Value::Finite { num: n2, den: d2 }) => {
                if n2 == 0 {
                    if n1 > 0 {
                        Some(Value::Infinite { negative: false })
                    } else if n1 < 0 {
                        Some(Value::Infinite { negative: true })
                    } else {
                        Some(Value::Undefined)
                    }
                } else {
                    proof {
                        lemma_mul_by_den_fits(n1 as int, d2 as int);
                        lemma_div_den_fits(d1 as int, n2 as int);
                    }
                    let n = n1 as i128 * d2 as i128;
                    let d = d1 as i128 * n2 as i128;
                    if n2 > 0 {
                        make_fin(n, d)
                    } else {
                        make_fin(-n, -d)
                    }
                }
            },
        }
    }
}

/// The value a numeral denotes: the digit runs read as one integer over
/// ten to the number of fractional digits, negated under a minus sign.
/// Out of range when either part no longer fits the machine word.
pub open spec fn numeral_value(n: SpecNumeral) -> Option<Value> {
    let v = digits_val(n.int_digits + n.frac_digits);
    if n.frac_digits.len() > 18 || v > i64::MAX {
        None
    } else if n.negative {
        Some(Value::Finite { num: (-v) as i64, den: pow10(n.frac_digits.len()) as i64 })
    } else {
        Some(Value::Finite { num: v as i64, den: pow10(n.frac_digits.len()) as i64 })
    }
}

/// Reading one more digit multiplies the value by ten and adds the digit.
proof fn lemma_digits_val_step(ds: Seq<u8>, k: int)
    requires
        0 <= k < ds.len(),
    ensures
        digits_val(ds.take(k + 1)) == digits_val(ds.take(k)) * 10 + ds[k],
{
    assert(ds.take(k + 1).drop_last() =~= ds.take(k));
    assert(ds.take(k + 1).last() == ds[k]);
}

/// A prefix of a digit run never denotes more than the whole run.
proof fn lemma_digits_val_prefix_le(ds: Seq<u8>, k: int)
    requires
        0 <= k <= ds.len(),
    ensures
        digits_val(ds.take(k)) <= digits_val(ds),
    decreases ds.len() - k,
{
    if k == ds.len() {
        assert(ds.take(k) =~= ds);
    } else {
        lemma_digits_val_step(ds, k);
        crate::numeral::lemma_digits_val_nonneg(ds.take(k));
        lemma_digits_val_prefix_le(ds, k + 1);
    }
}

/// Powers of ten grow with the exponent.
proof fn lemma_pow10_le(a: nat, b: nat)
    requires
        a <= b,
    ensures
        pow10(a) <= pow10(b),
    decreases b,
{
    crate::numeral::lemma_pow10_pos(a);
    if a < b {
        lemma_pow10_le(a, (b - 1) as nat);
        crate::numeral::lemma_pow10_pos((b - 1) as nat);
    }
}

impl Value {
    /// The value a scanned numeral denotes, or `None` when it is out of
    /// range.
    pub fn from_numeral(n: &Numeral) -> (r: Option<Value>)
        ensures
            r == numeral_value(n@),
            r matches Some(v) ==> wf_value(v),
    {
        let ghost all = n@.int_digits + n@.frac_digits;
        if n.frac_digits.len() > 18 {
            return None;
        }
        // the denominator: ten to the number of fractional digits
        let mut den: i64 = 1;
        let mut j: usize = 0;
        proof {
            lemma_pow10_le(n@.frac_digits.len(), 18);
            assert(pow10(18) == 1000000000000000000) by {
                reveal_with_fuel(pow10, 19);
            }
        }
        while j < n.frac_digits.len()
            invariant
                j <= n.frac_digits.len() <= 18,
                den == pow10(j as nat),
                1 <= den,
                pow10(n@.frac_digits.len()) <= pow10(18),
                pow10(18) == 1000000000000000000,
            decreases n.frac_digits.len() - j,
        {
            proof {
                lemma_pow10_le((j + 1) as nat, n@.frac_digits.len());
            }
            den = den * 10;
            j = j + 1;
        }
        // the numerator: all digits read as one integer, the digits before
        // the point first
        let mut acc: i128 = 0;
        let mut k: usize = 0;
        proof {
            assert(all.take(0) =~= Seq::<u8>::empty());
        }
        while k < n.int_digits.len()
            invariant
                0 <= k <= n@.int_digits.len(),
                all == n@.int_digits + n@.frac_digits,
                acc == digits_val(all.take(k as int)),
                0 <= acc <= i64::MAX,
            decreases n.int_digits.len() - k,
        {
            let d = n.int_digits[k];
            proof {
                assert(all[k as int] == d);
                lemma_digits_val_step(all, k as int);
            }
            acc = acc * 10 + d as i128;
            if acc > i64::MAX as i128 {
                proof {
                    lemma_digits_val_prefix_le(all, k + 1 as int);
                }
                return None;
            }
            k = k + 1;
        }
        let base = n.int_digits.len();
        let mut k2: usize = 0;
        while k2 < n.frac_digits.len()
            invariant
                base == n@.int_digits.len(),
                0 <= k2 <= n@.frac_digits.len(),
                all == n@.int_digits + n@.frac_digits,
                acc == digits_val(all.take(base + k2 as int)),
                0 <= acc <= i64::MAX,
            decreases n.frac_digits.len() - k2,
        {
            let d = n.frac_digits[k2];
            proof {
                assert(all[base + k2 as int] == d);
                lemma_digits_val_step(all, base + k2 as int);
            }
            acc = acc * 10 + d as i128;
            if acc > i64::MAX as i128 {
                proof {
                    lemma_digits_val_prefix_le(all, base + k2 + 1 as int);
                }
                return None;
            }
            k2 = k2 + 1;
        }
        proof {
            assert(all.take(all.len() as int) =~= all);
        }
        let num = if n.negative {
            -(acc as i64)
        } else {
            acc as i64
        };
        Some(Value::Finite { num, den })
    }
}

} // verus!
