//! The integer structure of Benford's Law expected probabilities.
//!
//! For a leading block of digits `x` (1-9, 10-99 or 100-999), Benford's Law
//! gives `P(x) = log10(1 + 1/x)`. The second digit `d` has probability
//! `sum over k = 1..=9 of log10(1 + 1/(10k + d))`, the third digit
//! `sum over k = 10..=99 of log10(1 + 1/(10k + d))`, and the last two digits
//! are uniform. This module computes, for a position and a digit, the values
//! `x` whose terms `log10(1 + 1/x)` make up the probability.

use vstd::prelude::*;
use crate::digit::{DigitPosition, in_range};

verus! {

/// The values `x` whose `log10(1 + 1/x)` add up to the expected probability
/// of digit `d` at position `p`; none for the uniform last-two-digits
/// position.
pub open spec fn terms(p: DigitPosition, d: u32) -> Seq<int> {
    match p {
        DigitPosition::First | DigitPosition::FirstTwo | DigitPosition::FirstThree => seq![d as int],
        DigitPosition::Second => Seq::new(9, |j: int| 10 * (j + 1) + d),
        DigitPosition::Third => Seq::new(90, |j: int| 10 * (j + 10) + d),
        DigitPosition::LastTwo => seq![],
    }
}

/// Whether the terms of digit `d` at position `p` can be computed in `u32`.
pub open spec fn terms_fit(p: DigitPosition, d: u32) -> bool {
    match p {
        DigitPosition::Second => d + 90 <= u32::MAX,
        DigitPosition::Third => d + 990 <= u32::MAX,
        _ => true,
    }
}

/// The values `x` whose terms `log10(1 + 1/x)` sum to the expected
/// probability of `digit` at `position`, in the order they are added.
pub fn benford_terms(position: DigitPosition, digit: u32) -> (r: Vec<u32>)
    requires
        terms_fit(position, digit),
    ensures
        r@.len() == terms(position, digit).len(),
        forall|j: int| 0 <= j < r@.len() ==> #[trigger] r@[j] == terms(position, digit)[j],
{
    let mut r: Vec<u32> = Vec::new();
    match position {
        DigitPosition::First | DigitPosition::FirstTwo | DigitPosition::FirstThree => {
            r.push(digit);
        },
        DigitPosition::Second | DigitPosition::Third => {
            let (first, last): (u32, u32) = if position == DigitPosition::Second {
                (1, 9)
            } else {
                (10, 99)
            };
            let mut k: u32 = first;
            while k <= last
                invariant
                    first <= k <= last + 1,
                    last <= 99,
                    position == DigitPosition::Second ==> first == 1 && last == 9,
                    position == DigitPosition::Third ==> first == 10 && last == 99,
                    position == DigitPosition::Second || position == DigitPosition::Third,
                    terms_fit(position, digit),
                    r@.len() == k - first,
                    forall|j: int| 0 <= j < r@.len() ==> #[trigger] r@[j] == 10 * (j + first) + digit,
                decreases last + 1 - k,
            {
                r.push(10 * k + digit);
                k = k + 1;
            }
        },
        DigitPosition::LastTwo => {},
    }
    r
}

/// The first value of the block of leading digits a position's terms cover:
/// its terms cover exactly the values from this one up to, excluding, ten
/// times this one.
pub open spec fn block_start(p: DigitPosition) -> int {
    match p {
        DigitPosition::First => 1,
        DigitPosition::Second | DigitPosition::FirstTwo => 10,
        DigitPosition::Third | DigitPosition::FirstThree => 100,
        DigitPosition::LastTwo => 0,
    }
}

/// Whether `x` lies in the block of leading-digit values of position `p`.
pub open spec fn in_block(p: DigitPosition, x: int) -> bool {
    block_start(p) <= x < 10 * block_start(p)
}

/// Benford's Law is a distribution: for every position but the uniform
/// last two digits, the terms of the position's digits cover the block of
/// values from `a = block_start(p)` to `10a - 1` exactly once, so the
/// expected probabilities add up to `log10(10a / a) = 1`. Every term lies
/// in the block, every value of the block is a term of some digit, and no
/// value is the term of two digits or twice the term of one.
pub proof fn lemma_terms_partition_block(p: DigitPosition)
    requires
        p != DigitPosition::LastTwo,
    ensures
        forall|d: u32, j: int|
            in_range(p, d) && 0 <= j < terms(p, d).len() ==> in_block(p, #[trigger] terms(p, d)[j]),
        forall|x: int|
            #[trigger] in_block(p, x) ==> exists|d: u32, j: int|
                in_range(p, d) && 0 <= j < terms(p, d).len() && #[trigger] terms(p, d)[j] == x,
        forall|d1: u32, j1: int, d2: u32, j2: int|
            in_range(p, d1) && in_range(p, d2) && 0 <= j1 < terms(p, d1).len() && 0 <= j2 < terms(
                p,
                d2,
            ).len() && #[trigger] terms(p, d1)[j1] == #[trigger] terms(p, d2)[j2] ==> d1 == d2 && j1 == j2,
{
    assert forall|x: int| #[trigger] in_block(p, x) implies exists|d: u32, j: int|
        in_range(p, d) && 0 <= j < terms(p, d).len() && #[trigger] terms(p, d)[j] == x by {
        match p {
            DigitPosition::Second => {
                let d = (x % 10) as u32;
                let j = x / 10 - 1;
                assert(terms(p, d)[j] == x);
            },
            DigitPosition::Third => {
                let d = (x % 10) as u32;
                let j = x / 10 - 10;
                assert(terms(p, d)[j] == x);
            },
            _ => {
                let d = x as u32;
                assert(terms(p, d)[0] == x);
            },
        }
    }
}

/// The digit that position `p` reads off a value `x` of its block: the
/// whole value for the leading positions (first digit, first two, first
/// three), the last digit for the second and third digit positions.
pub open spec fn block_digit(p: DigitPosition, x: int) -> int {
    match p {
        DigitPosition::Second | DigitPosition::Third => x % 10,
        _ => x,
    }
}

/// Each digit gets exactly its own share of the block: the terms of digit
/// `d` at position `p` are the values of the block whose digit at `p` is
/// `d`, each once, in increasing order. For a leading position that is the
/// single value `d` itself, so `P(d) = log10(1 + 1/d)`; for the second
/// digit the values `10k + d` with `k` from 1 to 9, and for the third
/// digit those with `k` from 10 to 99.
pub proof fn lemma_terms_are_block_values_of_digit(p: DigitPosition, d: u32)
    requires
        p != DigitPosition::LastTwo,
        in_range(p, d),
    ensures
        forall|x: int|
            (exists|j: int| 0 <= j < terms(p, d).len() && #[trigger] terms(p, d)[j] == x) <==> (in_block(p, x)
                && block_digit(p, x) == d),
        forall|i: int, j: int|
            0 <= i < j < terms(p, d).len() ==> #[trigger] terms(p, d)[i] < #[trigger] terms(p, d)[j],
{
    assert forall|x: int|
        (exists|j: int| 0 <= j < terms(p, d).len() && #[trigger] terms(p, d)[j] == x) <==> (in_block(p, x)
            && block_digit(p, x) == d) by {
        if in_block(p, x) && block_digit(p, x) == d {
            match p {
                DigitPosition::Second => {
                    let j = x / 10 - 1;
                    assert(terms(p, d)[j] == x);
                },
                DigitPosition::Third => {
                    let j = x / 10 - 10;
                    assert(terms(p, d)[j] == x);
                },
                _ => {
                    assert(terms(p, d)[0] == x);
                },
            }
        }
    }
}

/// For the leading positions (first digit, first two digits, first three
/// digits), the expected probability of `d` is the single term
/// `log10(1 + 1/d)`.
pub proof fn lemma_leading_terms(p: DigitPosition, d: u32)
    requires
        p == DigitPosition::First || p == DigitPosition::FirstTwo || p == DigitPosition::FirstThree,
        in_range(p, d),
    ensures
        terms(p, d) == seq![d as int],
{
    lemma_terms_are_block_values_of_digit(p, d);
    assert(in_block(p, d as int) && block_digit(p, d as int) == d);
    assert(terms(p, d) =~= seq![d as int]);
}

} // verus!
