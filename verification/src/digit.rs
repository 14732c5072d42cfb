//! Digit positions for Benford's Law analysis.
//!
//! A position names which digits of a positive number are looked at: the
//! leading digit, the second or third digit, the first two or three digits
//! taken together, or the last two digits of the integer part.

use vstd::prelude::*;

verus! {

/// Which digit position to analyze.
#[derive(Debug, Clone, Copy, PartialEq, Eq, Hash, Structural)]
pub enum DigitPosition {
    /// First (leading) digit: 1-9
    First,
    /// Second digit: 0-9
    Second,
    /// Third digit: 0-9
    Third,
    /// First two digits combined: 10-99
    FirstTwo,
    /// First three digits combined: 100-999
    FirstThree,
    /// Last two digits: 00-99 (used for detecting rounded/fabricated data)
    LastTwo,
}

/// The smallest digit value of a position.
pub open spec fn range_min(p: DigitPosition) -> u32 {
    match p {
        DigitPosition::First => 1,
        DigitPosition::Second => 0,
        DigitPosition::Third => 0,
        DigitPosition::FirstTwo => 10,
        DigitPosition::FirstThree => 100,
        DigitPosition::LastTwo => 0,
    }
}

/// The largest digit value of a position.
pub open spec fn range_max(p: DigitPosition) -> u32 {
    match p {
        DigitPosition::First => 9,
        DigitPosition::Second => 9,
        DigitPosition::Third => 9,
        DigitPosition::FirstTwo => 99,
        DigitPosition::FirstThree => 999,
        DigitPosition::LastTwo => 99,
    }
}

/// The number of digit values of a position.
pub open spec fn categories(p: DigitPosition) -> nat {
    (range_max(p) - range_min(p) + 1) as nat
}

/// Whether `d` is one of the digit values of position `p`.
pub open spec fn in_range(p: DigitPosition, d: u32) -> bool {
    range_min(p) <= d <= range_max(p)
}

/// The human-readable label of a position.
pub open spec fn position_label(p: DigitPosition) -> Seq<char> {
    match p {
        DigitPosition::First => "First Digit"@,
        DigitPosition::Second => "Second Digit"@,
        DigitPosition::Third => "Third Digit"@,
        DigitPosition::FirstTwo => "First-Two Digits"@,
        DigitPosition::FirstThree => "First-Three Digits"@,
        DigitPosition::LastTwo => "Last-Two Digits"@,
    }
}

impl DigitPosition {
    /// Returns the human-readable label for this position.
    pub fn label(&self) -> (r: &'static str)
        ensures
            r@ == position_label(*self),
    {
        match self {
            DigitPosition::First => "First Digit",
            DigitPosition::Second => "Second Digit",
            DigitPosition::Third => "Third Digit",
            DigitPosition::FirstTwo => "First-Two Digits",
            DigitPosition::FirstThree => "First-Three Digits",
            DigitPosition::LastTwo => "Last-Two Digits",
        }
    }

    /// Returns the valid range of digit values for this position (min, max inclusive).
    pub fn range(&self) -> (r: (u32, u32))
        ensures
            r == (range_min(*self), range_max(*self)),
    {
        match self {
            DigitPosition::First => (1, 9),
            DigitPosition::Second => (0, 9),
            DigitPosition::Third => (0, 9),
            DigitPosition::FirstTwo => (10, 99),
            DigitPosition::FirstThree => (100, 999),
            DigitPosition::LastTwo => (0, 99),
        }
    }

    /// Returns all valid digit values for this position, in increasing order.
    pub fn values(&self) -> (v: Vec<u32>)
        ensures
            v@.len() == categories(*self),
            forall|i: int| 0 <= i < v@.len() ==> v@[i] == range_min(*self) + i,
    {
        let (min, max) = self.range();
        let mut v: Vec<u32> = Vec::new();
        let mut d: u32 = min;
        while d <= max
            invariant
                min == range_min(*self),
                max == range_max(*self),
                min <= d <= max + 1,
                v@.len() == d - min,
                forall|i: int| 0 <= i < v@.len() ==> v@[i] == min + i,
            decreases max + 1 - d,
        {
            v.push(d);
            d = d + 1;
        }
        v
    }

    /// Number of categories for this position.
    pub fn category_count(&self) -> (n: usize)
        ensures
            n == categories(*self),
    {
        let (min, max) = self.range();
        (max - min + 1) as usize
    }
}

/// The digit values of the positions fit together as decimal digits do: a
/// second or third digit is any digit `0`-`9`, a first digit any but `0`;
/// the first two digits are a first digit followed by a second digit, the
/// first three digits are the first two followed by a third digit, and the
/// last two digits are any two digits.
pub proof fn lemma_position_values_compose(x: u32)
    ensures
        in_range(DigitPosition::Second, x) <==> x < 10,
        in_range(DigitPosition::Third, x) <==> x < 10,
        in_range(DigitPosition::First, x) <==> x < 10 && x != 0,
        in_range(DigitPosition::FirstTwo, x) <==> (in_range(DigitPosition::First, x / 10) && in_range(
            DigitPosition::Second,
            x % 10,
        )),
        in_range(DigitPosition::FirstThree, x) <==> (in_range(DigitPosition::FirstTwo, x / 10) && in_range(
            DigitPosition::Third,
            x % 10,
        )),
        in_range(DigitPosition::LastTwo, x) <==> (in_range(DigitPosition::Second, x / 10) && in_range(
            DigitPosition::Second,
            x % 10,
        )),
{
}

} // verus!
