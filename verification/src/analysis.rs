//! The counting side of a Benford's Law analysis.
//!
//! An analysis counts how often each digit value of a position occurs among
//! the digits extracted from a dataset, in the position's own order, and
//! classifies the combined risk into a level.

use vstd::prelude::*;
use crate::digit::{DigitPosition, categories, in_range, range_min, range_max};

verus! {

broadcast use vstd::seq_lib::group_to_multiset_ensures;

/// Risk level classification based on combined statistical signals.
#[derive(Debug, Clone, Copy, PartialEq, Eq, Structural)]
pub enum RiskLevel {
    /// Low risk — data conforms well to Benford's Law.
    Low,
    /// Moderate risk — some deviations detected.
    Moderate,
    /// High risk — significant deviations, possible fraud/anomaly.
    High,
    /// Critical risk — extreme deviations, data likely manipulated.
    Critical,
}

/// The label of a risk level.
pub open spec fn risk_label(r: RiskLevel) -> Seq<char> {
    match r {
        RiskLevel::Low => "Low"@,
        RiskLevel::Moderate => "Moderate"@,
        RiskLevel::High => "High"@,
        RiskLevel::Critical => "Critical"@,
    }
}

/// The terminal color name of a risk level.
pub open spec fn risk_color(r: RiskLevel) -> Seq<char> {
    match r {
        RiskLevel::Low => "green"@,
        RiskLevel::Moderate => "yellow"@,
        RiskLevel::High => "red"@,
        RiskLevel::Critical => "bright_red"@,
    }
}

impl RiskLevel {
    /// The label shown in reports.
    pub fn label(&self) -> (r: &'static str)
        ensures
            r@ == risk_label(*self),
    {
        match self {
            RiskLevel::Low => "Low",
            RiskLevel::Moderate => "Moderate",
            RiskLevel::High => "High",
            RiskLevel::Critical => "Critical",
        }
    }

    /// The terminal color used for this level.
    pub fn color(&self) -> (r: &'static str)
        ensures
            r@ == risk_color(*self),
    {
        match self {
            RiskLevel::Low => "green",
            RiskLevel::Moderate => "yellow",
            RiskLevel::High => "red",
            RiskLevel::Critical => "bright_red",
        }
    }
}

/// How many times `d` occurs in `digits`.
pub open spec fn occurrences(digits: Seq<u32>, d: u32) -> nat {
    digits.to_multiset().count(d)
}

/// The observed table of a position: for each digit value of the position, in
/// increasing order, the value and how often it occurs in `digits`.
pub open spec fn is_observed_table(table: Seq<(u32, usize)>, digits: Seq<u32>, p: DigitPosition) -> bool {
    &&& table.len() == categories(p)
    &&& forall|i: int|
        0 <= i < table.len() ==> {
            &&& #[trigger] table[i].0 == range_min(p) + i
            &&& table[i].1 == occurrences(digits, (range_min(p) + i) as u32)
        }
}

/// Counts the extracted digits per digit value of `position`.
///
/// Returns an error when no digit was extracted at all; otherwise one
/// `(digit, count)` pair for each value of the position, in increasing order.
/// Digits outside the position's range are not counted.
pub fn observed_counts(digits: &Vec<u32>, position: DigitPosition) -> (r: Result<Vec<(u32, usize)>, String>)
    ensures
        digits@.len() == 0 <==> r is Err,
        r matches Err(e) ==> e@ == "no valid digits could be extracted"@,
        r matches Ok(t) ==> is_observed_table(t@, digits@, position),
{
    if digits.len() == 0 {
        return Err(String::from_str("no valid digits could be extracted"));
    }
    let (min, max) = position.range();
    let n = position.category_count();
    let mut counts: Vec<usize> = Vec::new();
    while counts.len() < n
        invariant
            n == categories(position),
            counts.len() <= n,
            forall|j: int| 0 <= j < counts.len() ==> counts[j] == 0,
        decreases n - counts.len(),
    {
        counts.push(0);
    }
    proof {
        assert(digits@.take(0) =~= Seq::<u32>::empty());
    }
    let mut i: usize = 0;
    while i < digits.len()
        invariant
            min == range_min(position),
            max == range_max(position),
            n == categories(position),
            counts.len() == n,
            i <= digits.len(),
            forall|j: int| 0 <= j < n ==> #[trigger] counts[j] == occurrences(digits@.take(i as int), (min + j) as u32),
            forall|j: int| 0 <= j < n ==> #[trigger] counts[j] <= i,
        decreases digits.len() - i,
    {
        let d = digits[i];
        proof {
            assert(digits@.take(i + 1) =~= digits@.take(i as int).push(d));
        }
        if min <= d && d <= max {
            let k = (d - min) as usize;
            counts.set(k, counts[k] + 1);
        }
        i = i + 1;
        proof {
            assert forall|j: int| 0 <= j < n implies #[trigger] counts[j] == occurrences(digits@.take(i as int), (min + j) as u32) by {
                assert(digits@.take(i as int) == digits@.take(i - 1).push(d));
            }
        }
    }
    proof {
        assert(digits@.take(i as int) =~= digits@);
    }
    let mut table: Vec<(u32, usize)> = Vec::new();
    let mut k: usize = 0;
    while k < n
        invariant
            min == range_min(position),
            max == range_max(position),
            n == categories(position),
            counts.len() == n,
            k <= n,
            table.len() == k,
            forall|j: int| 0 <= j < n ==> #[trigger] counts[j] == occurrences(digits@, (min + j) as u32),
            forall|j: int| 0 <= j < k ==> #[trigger] table@[j].0 == min + j && table@[j].1 == occurrences(digits@, (min + j) as u32),
        decreases n - k,
    {
        table.push((min + k as u32, counts[k]));
        k = k + 1;
    }
    assert forall|i: int| 0 <= i < table@.len() implies {
        &&& #[trigger] table@[i].0 == range_min(position) + i
        &&& table@[i].1 == occurrences(digits@, (range_min(position) + i) as u32)
    } by {
        assert(table@[i].0 == min + i);
    }
    assert(table@.len() == categories(position));
    assert(is_observed_table(table@, digits@, position));
    Ok(table)
}

/// The sum of the counts of an observed table.
pub open spec fn table_total(t: Seq<(u32, usize)>) -> int
    decreases t.len(),
{
    if t.len() == 0 {
        0
    } else {
        table_total(t.drop_last()) + t.last().1
    }
}

/// How many of `digits` lie among the `k` consecutive values starting at `lo`,
/// counted value by value.
spec fn span_count(digits: Seq<u32>, lo: int, k: nat) -> nat
    decreases k,
{
    if k == 0 {
        0
    } else {
        span_count(digits, lo, (k - 1) as nat) + occurrences(digits, (lo + k - 1) as u32)
    }
}

proof fn lemma_table_prefix_total(table: Seq<(u32, usize)>, digits: Seq<u32>, p: DigitPosition, j: nat)
    requires
        is_observed_table(table, digits, p),
        j <= table.len(),
    ensures
        table_total(table.take(j as int)) == span_count(digits, range_min(p) as int, j),
    decreases j,
{
    if j > 0 {
        let t = table.take(j as int);
        assert(t.drop_last() =~= table.take(j - 1));
        lemma_table_prefix_total(table, digits, p, (j - 1) as nat);
        assert(t.last() == table[j - 1]);
        assert(table[j - 1].0 == range_min(p) + (j - 1));
    }
}

proof fn lemma_span_count_push(digits: Seq<u32>, x: u32, lo: int, k: nat)
    requires
        0 <= lo,
        lo + k <= u32::MAX + 1,
    ensures
        span_count(digits.push(x), lo, k) == span_count(digits, lo, k) + (if lo <= x < lo + k { 1int } else { 0int }),
    decreases k,
{
    if k > 0 {
        lemma_span_count_push(digits, x, lo, (k - 1) as nat);
        let v = (lo + k - 1) as u32;
        assert(digits.push(x).to_multiset() =~= digits.to_multiset().insert(x));
        assert(occurrences(digits.push(x), v) == occurrences(digits, v) + (if x == v { 1int } else { 0int }));
    }
}

proof fn lemma_span_count_filter(digits: Seq<u32>, lo: int, k: nat)
    requires
        0 <= lo,
        lo + k <= u32::MAX + 1,
    ensures
        span_count(digits, lo, k) == digits.filter(|d: u32| lo <= d < lo + k).len(),
    decreases digits.len(),
{
    let pred = |d: u32| lo <= d < lo + k;
    if digits.len() == 0 {
        lemma_span_count_zero(digits, lo, k);
        assert(digits.filter(pred) =~= Seq::<u32>::empty());
    } else {
        let init = digits.drop_last();
        let x = digits.last();
        assert(init.push(x) =~= digits);
        lemma_span_count_filter(init, lo, k);
        lemma_span_count_push(init, x, lo, k);
        init.lemma_filter_push(x, pred);
    }
}

proof fn lemma_span_count_zero(digits: Seq<u32>, lo: int, k: nat)
    requires
        digits.len() == 0,
    ensures
        span_count(digits, lo, k) == 0,
    decreases k,
{
    if k > 0 {
        lemma_span_count_zero(digits, lo, (k - 1) as nat);
        assert(digits.to_multiset().len() == 0);
    }
}

/// Every digit in the range of the position is counted exactly once: the
/// counts of an observed table add up to the number of extracted digits that
/// lie in the position's range.
pub proof fn lemma_observed_total(table: Seq<(u32, usize)>, digits: Seq<u32>, p: DigitPosition)
    requires
        is_observed_table(table, digits, p),
    ensures
        table_total(table) == digits.filter(|d: u32| in_range(p, d)).len(),
{
    let lo = range_min(p) as int;
    let k = categories(p);
    lemma_table_prefix_total(table, digits, p, k);
    assert(table.take(k as int) =~= table);
    lemma_span_count_filter(digits, lo, k);
    assert((|d: u32| in_range(p, d)) =~= (|d: u32| lo <= d < lo + k));
}

} // verus!
