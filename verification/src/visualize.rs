//! The bars of the ASCII distribution chart.
//!
//! A chart row shows the observed proportion of a digit as a run of `█`
//! and marks the expected proportion with `|` (or `╪` where the two meet).
//! The lengths come from the proportions; this module lays the bar out.

use vstd::prelude::*;
use crate::text::push_char;

verus! {

/// The width of the bar area of a chart that is `width` columns wide: the
/// width is held between 20 and 80, and 18 columns go to the digit and the
/// percentages.
pub open spec fn bar_area(width: usize) -> usize {
    let w = if width < 20 { 20usize } else if width > 80 { 80usize } else { width };
    (w - 18) as usize
}

/// The bar area width for a chart of the given width.
pub fn bar_area_width(width: usize) -> (r: usize)
    ensures
        r == bar_area(width),
        2 <= r <= 62,
{
    let w = if width < 20 { 20 } else if width > 80 { 80 } else { width };
    w - 18
}

/// The character at column `i` of a bar with `observed` filled columns and
/// the expected marker at column `expected` (counted from one).
pub open spec fn bar_cell(i: int, observed: usize, expected: usize, width: usize) -> char {
    if 0 < expected < width && i == expected - 1 {
        if i < observed { '╪' } else { '|' }
    } else if i < observed {
        '█'
    } else {
        ' '
    }
}

/// Lays out one bar of `width` columns: the first `observed` columns are
/// filled, and when `0 < expected < width` column `expected` carries the
/// expected marker, `|` on an empty cell and `╪` on a filled one.
pub fn render_bar(observed: usize, expected: usize, width: usize) -> (r: String)
    ensures
        r@.len() == width,
        forall|i: int| 0 <= i < width ==> #[trigger] r@[i] == bar_cell(i, observed, expected, width),
{
    let mut s = String::new();
    let mut i: usize = 0;
    while i < width
        invariant
            i <= width,
            s@.len() == i,
            forall|k: int| 0 <= k < i ==> #[trigger] s@[k] == bar_cell(k, observed, expected, width),
        decreases width - i,
    {
        let c = if 0 < expected && expected < width && i == expected - 1 {
            if i < observed { '╪' } else { '|' }
        } else if i < observed {
            '█'
        } else {
            ' '
        };
        push_char(&mut s, c);
        i = i + 1;
    }
    s
}

/// A bar is filled exactly up to the observed length and marked exactly at
/// the expected column: a cell is filled (`█`, or `╪` under the marker) if
/// and only if it comes before column `observed`, and it carries the marker
/// (`|`, or `╪` on a filled cell) if and only if it is column `expected`
/// (counted from one) and that column lies inside the bar. Every other cell
/// is blank.
pub proof fn lemma_bar_cells(i: int, observed: usize, expected: usize, width: usize)
    requires
        0 <= i < width,
    ensures
        (bar_cell(i, observed, expected, width) == '█' || bar_cell(i, observed, expected, width) == '╪')
            <==> i < observed,
        (bar_cell(i, observed, expected, width) == '|' || bar_cell(i, observed, expected, width) == '╪')
            <==> (1 <= expected < width && i + 1 == expected),
        bar_cell(i, observed, expected, width) == '█' || bar_cell(i, observed, expected, width) == '╪'
            || bar_cell(i, observed, expected, width) == '|' || bar_cell(i, observed, expected, width) == ' ',
{
}

/// The bar area takes what is left of the chart's width after the 18
/// columns of labels, the width being held between 20 and 80: it grows with
/// the width, one column for one column inside those bounds.
pub proof fn lemma_bar_area_follows_width(w1: usize, w2: usize)
    ensures
        w1 <= w2 ==> bar_area(w1) <= bar_area(w2),
        20 <= w1 <= 80 ==> bar_area(w1) + 18 == w1,
        w1 < 20 ==> bar_area(w1) == bar_area(20),
        w1 > 80 ==> bar_area(w1) == bar_area(80),
{
}

} // verus!
