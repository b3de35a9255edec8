//! The exact decimal form of a number literal, as the scanner reads it:
//! an optional sign, the digits before the decimal point, and the digits
//! after it. Keeping the digits themselves makes scanning total (a literal
//! of any length is represented exactly) and makes serializing a literal
//! back to text lossless.

use vstd::prelude::*;

verus! {

/// A scanned number literal: `negative` records a leading minus sign,
/// `int_digits` the digits before the decimal point (at least one), and
/// `frac_digits` the digits after it (empty when there is no point).
/// Each digit is stored as its value, `0` to `9`.
#[derive(Debug, Clone, PartialEq, Eq)]
pub struct Numeral {
    pub negative: bool,
    pub int_digits: Vec<u8>,
    pub frac_digits: Vec<u8>,
}

/// The mathematical content of a `Numeral`.
#[verifier::ext_equal]
pub struct SpecNumeral {
    pub negative: bool,
    pub int_digits: Seq<u8>,
    pub frac_digits: Seq<u8>,
}

impl View for Numeral {
    type V = SpecNumeral;

    open spec fn view(&self) -> SpecNumeral {
        SpecNumeral {
            negative: self.negative,
            int_digits: self.int_digits@,
            frac_digits: self.frac_digits@,
        }
    }
}

/// Every entry is a digit value.
pub open spec fn all_digits(ds: Seq<u8>) -> bool {
    forall|k: int| 0 <= k < ds.len() ==> ds[k] <= 9
}

/// A well-formed numeral has at least one digit before the point and only
/// digit values in both runs.
pub open spec fn wf_numeral(n: SpecNumeral) -> bool {
    &&& n.int_digits.len() >= 1
    &&& all_digits(n.int_digits)
    &&& all_digits(n.frac_digits)
}

/// The non-negative integer a digit run denotes, most significant digit
/// first: each digit multiplies the accumulated value by ten and adds on.
pub open spec fn digits_val(ds: Seq<u8>) -> int
    decreases ds.len(),
{
    if ds.len() == 0 {
        0
    } else {
        digits_val(ds.drop_last()) * 10 + ds.last()
    }
}

/// Ten to the `k`.
pub open spec fn pow10(k: nat) -> int
    decreases k,
{
    if k == 0 {
        1
    } else {
        10 * pow10((k - 1) as nat)
    }
}

/// The exact rational a numeral denotes, as a numerator over `pow10` of the
/// number of fractional digits: `-12.34` denotes `-1234 / 100`.
pub open spec fn numeral_numerator(n: SpecNumeral) -> int {
    if n.negative {
        -digits_val(n.int_digits + n.frac_digits)
    } else {
        digits_val(n.int_digits + n.frac_digits)
    }
}

pub open spec fn numeral_denominator(n: SpecNumeral) -> int {
    pow10(n.frac_digits.len())
}

/// A digit run denotes a non-negative value.
pub proof fn lemma_digits_val_nonneg(ds: Seq<u8>)
    ensures
        digits_val(ds) >= 0,
    decreases ds.len(),
{
    if ds.len() > 0 {
        lemma_digits_val_nonneg(ds.drop_last());
    }
}

/// Powers of ten are positive.
pub proof fn lemma_pow10_pos(k: nat)
    ensures
        pow10(k) >= 1,
    decreases k,
{
    if k > 0 {
        lemma_pow10_pos((k - 1) as nat);
    }
}

} // verus!
