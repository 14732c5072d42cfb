//! The integer side of the goodness-of-fit tests: the conformity levels, the
//! validation every test starts with, and the observed count of a digit.

use vstd::prelude::*;
use crate::analysis::{table_total, is_observed_table, occurrences};
use crate::digit::{DigitPosition, in_range, range_min};

verus! {

/// Nigrini's MAD conformity levels for the first-two digit test.
#[derive(Debug, Clone, Copy, PartialEq, Eq, Structural)]
pub enum ConformityLevel {
    /// MAD < 0.006 — close conformity
    CloseConformity,
    /// 0.006 <= MAD < 0.012 — acceptable conformity
    AcceptableConformity,
    /// 0.012 <= MAD < 0.015 — marginally acceptable conformity
    MarginallyAcceptableConformity,
    /// MAD >= 0.015 — nonconformity
    Nonconformity,
}

/// The label of a conformity level.
pub open spec fn conformity_label(c: ConformityLevel) -> Seq<char> {
    match c {
        ConformityLevel::CloseConformity => "Close Conformity"@,
        ConformityLevel::AcceptableConformity => "Acceptable Conformity"@,
        ConformityLevel::MarginallyAcceptableConformity => "Marginally Acceptable"@,
        ConformityLevel::Nonconformity => "Nonconformity"@,
    }
}

impl ConformityLevel {
    /// The label shown in reports.
    pub fn label(&self) -> (r: &'static str)
        ensures
            r@ == conformity_label(*self),
    {
        match self {
            ConformityLevel::CloseConformity => "Close Conformity",
            ConformityLevel::AcceptableConformity => "Acceptable Conformity",
            ConformityLevel::MarginallyAcceptableConformity => "Marginally Acceptable",
            ConformityLevel::Nonconformity => "Nonconformity",
        }
    }
}

/// The check every goodness-of-fit test makes before computing: the observed
/// table must not be empty and its counts must not all be zero. Returns the
/// total count.
pub fn observed_total(observed: &[(u32, usize)]) -> (r: Result<usize, String>)
    requires
        table_total(observed@) <= usize::MAX,
    ensures
        observed@.len() == 0 ==> (r matches Err(e) && e@ == "observed data is empty"@),
        observed@.len() > 0 && table_total(observed@) == 0 ==> (r matches Err(e) && e@
            == "total count is zero"@),
        observed@.len() > 0 && table_total(observed@) > 0 ==> r == Ok::<usize, String>(
            table_total(observed@) as usize,
        ),
{
    if observed.len() == 0 {
        return Err(String::from_str("observed data is empty"));
    }
    let mut n: usize = 0;
    let mut i: usize = 0;
    proof {
        lemma_table_total_prefix_bounded(observed@, 0);
        assert(observed@.take(0) =~= Seq::<(u32, usize)>::empty());
    }
    while i < observed.len()
        invariant
            i <= observed@.len(),
            table_total(observed@) <= usize::MAX,
            n == table_total(observed@.take(i as int)),
        decreases observed@.len() - i,
    {
        proof {
            assert(observed@.take(i + 1).drop_last() =~= observed@.take(i as int));
            lemma_table_total_prefix_bounded(observed@, i + 1);
        }
        n = n + observed[i].1;
        i = i + 1;
    }
    assert(observed@.take(i as int) =~= observed@);
    if n == 0 {
        return Err(String::from_str("total count is zero"));
    }
    Ok(n)
}

proof fn lemma_table_total_prefix_bounded(t: Seq<(u32, usize)>, k: int)
    requires
        0 <= k <= t.len(),
    ensures
        0 <= table_total(t.take(k)) <= table_total(t),
    decreases t.len(),
{
    if t.len() > 0 {
        if k == t.len() {
            assert(t.take(k) =~= t);
            lemma_table_total_prefix_bounded(t.drop_last(), k - 1);
            assert(t.drop_last().take(k - 1) =~= t.drop_last());
        } else {
            lemma_table_total_prefix_bounded(t.drop_last(), k);
            assert(t.drop_last().take(k) =~= t.take(k));
            lemma_table_total_prefix_bounded(t.drop_last(), t.len() - 1);
            assert(t.drop_last().take(t.len() - 1) =~= t.drop_last());
        }
    }
}

/// The count that a map built from the `(digit, count)` pairs, in order,
/// holds for `d`: the count of the last pair for `d`, or zero.
pub open spec fn count_of(observed: Seq<(u32, usize)>, d: u32) -> usize
    decreases observed.len(),
{
    if observed.len() == 0 {
        0
    } else if observed.last().0 == d {
        observed.last().1
    } else {
        count_of(observed.drop_last(), d)
    }
}

/// The observed count of digit `d`: that of the last pair for `d`, or zero
/// when `d` does not occur.
pub fn observed_count(observed: &[(u32, usize)], d: u32) -> (c: usize)
    ensures
        c == count_of(observed@, d),
{
    let mut i = observed.len();
    assert(observed@.take(i as int) =~= observed@);
    while i > 0
        invariant
            i <= observed@.len(),
            count_of(observed@, d) == count_of(observed@.take(i as int), d),
        decreases i,
    {
        assert(observed@.take(i as int).drop_last() =~= observed@.take(i - 1));
        if observed[i - 1].0 == d {
            return observed[i - 1].1;
        }
        i = i - 1;
    }
    0
}

proof fn lemma_count_of_consecutive(t: Seq<(u32, usize)>, lo: int, d: u32)
    requires
        forall|i: int| 0 <= i < t.len() ==> #[trigger] t[i].0 == lo + i,
    ensures
        count_of(t, d) == (if lo <= d < lo + t.len() { t[d - lo].1 } else { 0 }),
    decreases t.len(),
{
    if t.len() > 0 {
        let init = t.drop_last();
        assert forall|i: int| 0 <= i < init.len() implies #[trigger] init[i].0 == lo + i by {
            assert(init[i] == t[i]);
        }
        lemma_count_of_consecutive(init, lo, d);
        assert(t.last().0 == lo + t.len() - 1);
        if lo <= d < lo + init.len() {
            assert(init[d - lo] == t[d - lo]);
        }
    }
}

/// Looking a digit up in an observed table gives back what was counted:
/// the number of times the digit was extracted when it is a value of the
/// position, and zero otherwise.
pub proof fn lemma_count_of_observed_table(table: Seq<(u32, usize)>, digits: Seq<u32>, p: DigitPosition, d: u32)
    requires
        is_observed_table(table, digits, p),
    ensures
        count_of(table, d) == (if in_range(p, d) { occurrences(digits, d) } else { 0 }),
{
    let lo = range_min(p) as int;
    assert forall|i: int| 0 <= i < table.len() implies #[trigger] table[i].0 == lo + i by {}
    lemma_count_of_consecutive(table, lo, d);
    if in_range(p, d) {
        assert(table[d - lo].0 == lo + (d - lo));
        assert(table[d - lo].1 == occurrences(digits, (lo + (d - lo)) as u32));
    }
}

} // verus!
