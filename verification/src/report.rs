//! The text of reports that does not depend on measured proportions: output
//! formats, HTML escaping, and the dataset headers of the text, markdown and
//! HTML reports.

use vstd::prelude::*;
use crate::text::push_char;

verus! {

/// Output format for reports.
#[derive(Debug, Clone, Copy, PartialEq, Eq, Structural)]
pub enum OutputFormat {
    /// Plain text report.
    Text,
    /// JSON structured report.
    Json,
    /// Markdown report.
    Markdown,
    /// HTML report.
    Html,
}

/// The file extension of an output format.
pub open spec fn format_extension(f: OutputFormat) -> Seq<char> {
    match f {
        OutputFormat::Text => "txt"@,
        OutputFormat::Json => "json"@,
        OutputFormat::Markdown => "md"@,
        OutputFormat::Html => "html"@,
    }
}

impl OutputFormat {
    /// The file extension conventionally used for this format.
    pub fn extension(&self) -> (r: &'static str)
        ensures
            r@ == format_extension(*self),
    {
        match self {
            OutputFormat::Text => "txt",
            OutputFormat::Json => "json",
            OutputFormat::Markdown => "md",
            OutputFormat::Html => "html",
        }
    }
}

/// The HTML text of one character: `&`, `<`, `>` and `"` become entities.
pub open spec fn escape_char(c: char) -> Seq<char> {
    if c == '&' {
        "&amp;"@
    } else if c == '<' {
        "&lt;"@
    } else if c == '>' {
        "&gt;"@
    } else if c == '"' {
        "&quot;"@
    } else {
        seq![c]
    }
}

/// The HTML-escaped text of `s`, character by character.
pub open spec fn html_escaped(s: Seq<char>) -> Seq<char>
    decreases s.len(),
{
    if s.len() == 0 {
        seq![]
    } else {
        html_escaped(s.drop_last()) + escape_char(s.last())
    }
}

/// Escapes the characters that are special in HTML text and attributes.
pub fn html_escape(s: &str) -> (r: String)
    ensures
        r@ == html_escaped(s@),
{
    let mut out = String::new();
    let ghost mut seen: Seq<char> = seq![];
    for c in it: s.chars()
        invariant
            it.seq() == s@,
            seen == it.seq().take(it.index() as int),
            out@ == html_escaped(seen),
    {
        proof {
            assert(seen.push(c).drop_last() =~= seen);
        }
        if c == '&' {
            out.append("&amp;");
        } else if c == '<' {
            out.append("&lt;");
        } else if c == '>' {
            out.append("&gt;");
        } else if c == '"' {
            out.append("&quot;");
        } else {
            push_char(&mut out, c);
            assert(out@ =~= html_escaped(seen) + seq![c]);
        }
        proof {
            seen = seen.push(c);
        }
    }
    proof {
        assert(seen =~= s@);
    }
    out
}

/// HTML escaping leaves no character that could open a tag or close an
/// attribute: the escaped text of any string contains no `<`, `>` or `"`.
pub proof fn lemma_escaped_has_no_markup(s: Seq<char>)
    ensures
        forall|i: int|
            0 <= i < html_escaped(s).len() ==> #[trigger] html_escaped(s)[i] != '<' && html_escaped(s)[i]
                != '>' && html_escaped(s)[i] != '"',
    decreases s.len(),
{
    if s.len() > 0 {
        lemma_escaped_has_no_markup(s.drop_last());
        let pre = html_escaped(s.drop_last());
        let e = escape_char(s.last());
        reveal_strlit("&amp;");
        reveal_strlit("&lt;");
        reveal_strlit("&gt;");
        reveal_strlit("&quot;");
        assert forall|i: int| 0 <= i < html_escaped(s).len() implies #[trigger] html_escaped(s)[i] != '<'
            && html_escaped(s)[i] != '>' && html_escaped(s)[i] != '"' by {
            if i >= pre.len() {
                assert(html_escaped(s)[i] == e[i - pre.len()]);
            } else {
                assert(html_escaped(s)[i] == pre[i]);
            }
        }
    }
}

/// The entity that stands for `&`.
pub open spec fn amp_entity() -> Seq<char> {
    seq!['&', 'a', 'm', 'p', ';']
}

/// The entity that stands for `<`.
pub open spec fn lt_entity() -> Seq<char> {
    seq!['&', 'l', 't', ';']
}

/// The entity that stands for `>`.
pub open spec fn gt_entity() -> Seq<char> {
    seq!['&', 'g', 't', ';']
}

/// The entity that stands for `"`.
pub open spec fn quot_entity() -> Seq<char> {
    seq!['&', 'q', 'u', 'o', 't', ';']
}

/// Whether `t` begins with `p`.
pub open spec fn starts_with(t: Seq<char>, p: Seq<char>) -> bool {
    p.len() <= t.len() && t.subrange(0, p.len() as int) == p
}

/// Whether `t` begins with one of the four entities.
pub open spec fn starts_with_entity(t: Seq<char>) -> bool {
    starts_with(t, amp_entity()) || starts_with(t, lt_entity()) || starts_with(t, gt_entity())
        || starts_with(t, quot_entity())
}

/// Decodes the four entities of `t` in one left-to-right pass; every other
/// character stands for itself.
pub open spec fn html_unescaped(t: Seq<char>) -> Seq<char>
    decreases t.len(),
{
    if t.len() == 0 {
        seq![]
    } else if starts_with(t, amp_entity()) {
        seq!['&'] + html_unescaped(t.skip(5))
    } else if starts_with(t, lt_entity()) {
        seq!['<'] + html_unescaped(t.skip(4))
    } else if starts_with(t, gt_entity()) {
        seq!['>'] + html_unescaped(t.skip(4))
    } else if starts_with(t, quot_entity()) {
        seq!['"'] + html_unescaped(t.skip(6))
    } else {
        seq![t[0]] + html_unescaped(t.skip(1))
    }
}

/// Whether `c` is one of the characters that escaping replaces.
pub open spec fn is_markup_char(c: char) -> bool {
    c == '&' || c == '<' || c == '>' || c == '"'
}

proof fn lemma_entities_spelled()
    ensures
        "&amp;"@ == amp_entity(),
        "&lt;"@ == lt_entity(),
        "&gt;"@ == gt_entity(),
        "&quot;"@ == quot_entity(),
{
    reveal_strlit("&amp;");
    reveal_strlit("&lt;");
    reveal_strlit("&gt;");
    reveal_strlit("&quot;");
    assert("&amp;"@ =~= amp_entity());
    assert("&lt;"@ =~= lt_entity());
    assert("&gt;"@ =~= gt_entity());
    assert("&quot;"@ =~= quot_entity());
}

proof fn lemma_escaped_prepend(c: char, s: Seq<char>)
    ensures
        html_escaped(seq![c] + s) == escape_char(c) + html_escaped(s),
    decreases s.len(),
{
    if s.len() == 0 {
        assert(seq![c] + s =~= seq![c]);
        assert(seq![c].drop_last() =~= Seq::<char>::empty());
        assert(seq![c].last() == c);
        assert(html_escaped(Seq::<char>::empty()) == Seq::<char>::empty());
        assert(html_escaped(seq![c]) == html_escaped(Seq::<char>::empty()) + escape_char(c));
        assert(html_escaped(seq![c]) =~= escape_char(c));
        assert(escape_char(c) + html_escaped(s) =~= escape_char(c));
    } else {
        let t = seq![c] + s;
        assert(t.drop_last() =~= seq![c] + s.drop_last());
        assert(t.last() == s.last());
        lemma_escaped_prepend(c, s.drop_last());
        assert(html_escaped(t) =~= escape_char(c) + html_escaped(s));
    }
}

proof fn lemma_unescape_prepend(c: char, u: Seq<char>)
    ensures
        html_unescaped(escape_char(c) + u) == seq![c] + html_unescaped(u),
{
    lemma_entities_spelled();
    let e = escape_char(c);
    let t = e + u;
    if c == '&' {
        assert(t.subrange(0, 5) =~= amp_entity());
        assert(t.skip(5) =~= u);
    } else if c == '<' {
        assert(t[1] == 'l');
        assert(!starts_with(t, amp_entity()));
        assert(t.subrange(0, 4) =~= lt_entity());
        assert(t.skip(4) =~= u);
    } else if c == '>' {
        assert(t[1] == 'g');
        assert(!starts_with(t, amp_entity()));
        assert(!starts_with(t, lt_entity()));
        assert(t.subrange(0, 4) =~= gt_entity());
        assert(t.skip(4) =~= u);
    } else if c == '"' {
        assert(t[1] == 'q');
        assert(!starts_with(t, amp_entity()));
        assert(!starts_with(t, lt_entity()));
        assert(!starts_with(t, gt_entity()));
        assert(t.subrange(0, 6) =~= quot_entity());
        assert(t.skip(6) =~= u);
    } else {
        assert(t[0] == c);
        assert(!starts_with(t, amp_entity()));
        assert(!starts_with(t, lt_entity()));
        assert(!starts_with(t, gt_entity()));
        assert(!starts_with(t, quot_entity()));
        assert(t.skip(1) =~= u);
    }
}

/// Escaping can be undone: decoding the four entities of the escaped text,
/// left to right, gives back the original text.
pub proof fn lemma_unescape_escaped(s: Seq<char>)
    ensures
        html_unescaped(html_escaped(s)) == s,
    decreases s.len(),
{
    if s.len() > 0 {
        let rest = s.drop_first();
        assert(seq![s[0]] + rest =~= s);
        lemma_escaped_prepend(s[0], rest);
        lemma_unescape_prepend(s[0], html_escaped(rest));
        lemma_unescape_escaped(rest);
    }
}

/// Every `&` of escaped text begins one of the four entities `&amp;`,
/// `&lt;`, `&gt;` or `&quot;`.
pub proof fn lemma_escaped_entities_well_formed(s: Seq<char>)
    ensures
        forall|i: int|
            0 <= i < html_escaped(s).len() && #[trigger] html_escaped(s)[i] == '&' ==> starts_with_entity(
                html_escaped(s).skip(i),
            ),
    decreases s.len(),
{
    if s.len() > 0 {
        lemma_entities_spelled();
        let c = s[0];
        let rest = s.drop_first();
        assert(seq![c] + rest =~= s);
        lemma_escaped_prepend(c, rest);
        lemma_escaped_entities_well_formed(rest);
        let e = escape_char(c);
        let r = html_escaped(rest);
        let t = html_escaped(s);
        assert(t == e + r);
        assert forall|i: int| 0 <= i < t.len() && #[trigger] t[i] == '&' implies starts_with_entity(t.skip(i)) by {
            if i < e.len() {
                assert(i == 0);
                assert(t.skip(0) =~= t);
                assert(t.subrange(0, e.len() as int) =~= e);
            } else {
                assert(t[i] == r[i - e.len()]);
                assert(t.skip(i) =~= r.skip(i - e.len()));
            }
        }
    }
}

/// Text without `&`, `<`, `>` or `"` is left unchanged by escaping.
pub proof fn lemma_escape_plain_text(s: Seq<char>)
    requires
        forall|i: int| 0 <= i < s.len() ==> !is_markup_char(#[trigger] s[i]),
    ensures
        html_escaped(s) == s,
    decreases s.len(),
{
    if s.len() > 0 {
        let init = s.drop_last();
        assert forall|i: int| 0 <= i < init.len() implies !is_markup_char(#[trigger] init[i]) by {
            assert(init[i] == s[i]);
        }
        lemma_escape_plain_text(init);
        assert(!is_markup_char(s[s.len() - 1]));
        assert(init.push(s.last()) =~= s);
        assert(html_escaped(init) + seq![s.last()] =~= s);
    }
}

/// The decimal digit character of `d` (below ten).
pub open spec fn digit_char(d: nat) -> char {
    (('0' as nat) + d) as char
}

/// The decimal text of `n`, without leading zeros.
pub open spec fn decimal(n: nat) -> Seq<char>
    decreases n,
{
    if n < 10 {
        seq![digit_char(n)]
    } else {
        decimal(n / 10).push(digit_char(n % 10))
    }
}

/// The decimal text of `n`, as `usize`'s `Display` writes it.
pub fn decimal_text(n: usize) -> (r: String)
    ensures
        r@ == decimal(n as nat),
    decreases n,
{
    let d = (n % 10) as u32;
    let c = char_of_digit(d);
    if n < 10 {
        let mut s = String::new();
        push_char(&mut s, c);
        assert(s@ =~= seq![digit_char(n as nat)]);
        s
    } else {
        let mut s = decimal_text(n / 10);
        push_char(&mut s, c);
        s
    }
}

/// The digit character of `d`.
fn char_of_digit(d: u32) -> (c: char)
    requires
        d < 10,
    ensures
        c == digit_char(d as nat),
{
    let b = 48u8 + d as u8;
    b as char
}

/// The number a text of decimal digits stands for.
pub open spec fn decimal_value(s: Seq<char>) -> int
    decreases s.len(),
{
    if s.len() == 0 {
        0
    } else {
        10 * decimal_value(s.drop_last()) + (s.last() as int - '0' as int)
    }
}

/// The decimal text of a count reads back as that count: it is made of the
/// digits `0`-`9` only, is not empty, and has no leading zero.
pub proof fn lemma_decimal_reads_back(n: nat)
    ensures
        decimal_value(decimal(n)) == n,
        decimal(n).len() > 0,
        forall|i: int| 0 <= i < decimal(n).len() ==> '0' <= #[trigger] decimal(n)[i] <= '9',
        n > 0 ==> decimal(n)[0] != '0',
    decreases n,
{
    let s = decimal(n);
    let c = digit_char(n % 10);
    assert(c as int == '0' as int + n % 10);
    assert(n == 10 * (n / 10) + n % 10);
    assert(s.last() == c);
    if n >= 10 {
        lemma_decimal_reads_back(n / 10);
        assert(s.drop_last() =~= decimal(n / 10));
        assert forall|i: int| 0 <= i < s.len() implies '0' <= #[trigger] s[i] <= '9' by {
            if i < s.len() - 1 {
                assert(s[i] == decimal(n / 10)[i]);
            }
        }
        assert(s[0] == decimal(n / 10)[0]);
    } else {
        assert(s.drop_last() =~= Seq::<char>::empty());
        assert(decimal_value(s.drop_last()) == 0);
    }
}

/// What a report header says about a dataset: where it came from, which
/// column was read, and how many records were read, kept and skipped.
#[derive(Debug)]
pub struct DatasetSummary {
    /// Source label (file path or "stdin").
    pub source: String,
    /// Column name, if one was selected.
    pub column: Option<String>,
    /// Total records read (including skipped ones).
    pub total_records: usize,
    /// Number of valid values kept.
    pub valid_values: usize,
    /// Number of records skipped.
    pub skipped: usize,
}

/// `prefix`, then `value`, then a line break.
pub open spec fn line(prefix: Seq<char>, value: Seq<char>) -> Seq<char> {
    prefix + value + "\n"@
}

/// The line for an optional value: empty when there is none.
pub open spec fn optional_line(prefix: Seq<char>, value: Option<String>) -> Seq<char> {
    match value {
        Some(v) => line(prefix, v@),
        None => seq![],
    }
}

/// The line for a skipped count: empty when nothing was skipped.
pub open spec fn skipped_line(prefix: Seq<char>, skipped: usize) -> Seq<char> {
    if skipped > 0 {
        line(prefix, decimal(skipped as nat))
    } else {
        seq![]
    }
}

/// The header of a text report.
pub open spec fn text_header_text(d: DatasetSummary) -> Seq<char> {
    "╔══════════════════════════════════════════════════════════╗\n"@
        + "║              BenfordLens Analysis Report                ║\n"@
        + "╚══════════════════════════════════════════════════════════╝\n\n"@
        + line("  Source:          "@, d.source@)
        + optional_line("  Column:          "@, d.column)
        + line("  Total records:   "@, decimal(d.total_records as nat))
        + line("  Valid values:    "@, decimal(d.valid_values as nat))
        + skipped_line("  Skipped (invalid): "@, d.skipped)
}

/// The header of a markdown report.
pub open spec fn markdown_header_text(d: DatasetSummary) -> Seq<char> {
    "# BenfordLens Analysis Report\n\n"@
        + line("- **Source:** "@, d.source@)
        + optional_line("- **Column:** "@, d.column)
        + line("- **Total records:** "@, decimal(d.total_records as nat))
        + line("- **Valid values:** "@, decimal(d.valid_values as nat))
        + skipped_line("- **Skipped (invalid):** "@, d.skipped)
        + "\n"@
}

/// The opening of an HTML report: document head and style sheet.
pub open spec fn html_preamble() -> Seq<char> {
    "<!DOCTYPE html>\n<html lang=\"en\">\n<head>\n"@
        + "<meta charset=\"UTF-8\">\n"@
        + "<meta name=\"viewport\" content=\"width=device-width, initial-scale=1.0\">\n"@
        + "<title>BenfordLens Analysis Report</title>\n"@
        + "<style>\n"@
        + "body { font-family: -apple-system, sans-serif; max-width: 900px; margin: 2em auto; padding: 0 1em; }\n"@
        + "table { border-collapse: collapse; width: 100%; margin: 1em 0; }\n"@
        + "th, td { border: 1px solid #ddd; padding: 8px; text-align: left; }\n"@
        + "th { background: #f4f4f4; }\n"@
        + ".risk-low { color: green; }\n"@
        + ".risk-moderate { color: orange; }\n"@
        + ".risk-high { color: red; }\n"@
        + ".risk-critical { color: darkred; font-weight: bold; }\n"@
        + ".sig { background: #ffdddd; }\n"@
        + "</style>\n</head>\n<body>\n"@
        + "<h1>BenfordLens Analysis Report</h1>\n"@
}

/// The column paragraph of an HTML header: empty when no column was selected.
pub open spec fn html_column_part(column: Option<String>) -> Seq<char> {
    match column {
        Some(c) => "<p><strong>Column:</strong> "@ + html_escaped(c@) + "</p>\n"@,
        None => seq![],
    }
}

/// The skipped count of an HTML header: empty when nothing was skipped.
pub open spec fn html_skipped_part(skipped: usize) -> Seq<char> {
    if skipped > 0 {
        " | <strong>Skipped:</strong> "@ + decimal(skipped as nat)
    } else {
        seq![]
    }
}

/// The header of an HTML report, with the source and column escaped.
pub open spec fn html_header_text(d: DatasetSummary) -> Seq<char> {
    html_preamble()
        + "<p><strong>Source:</strong> "@ + html_escaped(d.source@) + "</p>\n"@
        + html_column_part(d.column)
        + "<p><strong>Total records:</strong> "@ + decimal(d.total_records as nat)
        + " | <strong>Valid values:</strong> "@ + decimal(d.valid_values as nat)
        + html_skipped_part(d.skipped)
        + "</p>\n"@
}

/// Whether `p` occurs in `t`.
pub open spec fn contains(t: Seq<char>, p: Seq<char>) -> bool {
    exists|k: int| 0 <= k && k + p.len() <= t.len() && #[trigger] t.subrange(k, k + p.len()) == p
}

/// Whether `t` ends with `p`.
pub open spec fn ends_with(t: Seq<char>, p: Seq<char>) -> bool {
    p.len() <= t.len() && t.subrange(t.len() - p.len(), t.len() as int) == p
}

proof fn lemma_contains_middle(a: Seq<char>, b: Seq<char>, c: Seq<char>)
    ensures
        contains(a + b + c, b),
{
    let t = a + b + c;
    assert(t.subrange(a.len() as int, (a.len() + b.len()) as int) =~= b);
}

proof fn lemma_ends_with_last(a: Seq<char>, b: Seq<char>)
    ensures
        ends_with(a + b, b),
{
    assert((a + b).subrange(a.len() as int, (a + b).len() as int) =~= b);
}

/// The markdown header reports the dataset as it is: it opens with the
/// report's title and holds the source line, the column line when a column
/// was selected, and the lines of the total and valid counts, each written
/// in decimal. It ends with the skipped count's line and a blank line when
/// records were skipped, and with the valid count's line and a blank line
/// when none were.
pub proof fn lemma_markdown_header_reports_dataset(d: DatasetSummary)
    ensures
        starts_with(markdown_header_text(d), "# BenfordLens Analysis Report\n\n"@),
        contains(markdown_header_text(d), "- **Source:** "@ + d.source@ + "\n"@),
        d.column matches Some(c) ==> contains(markdown_header_text(d), "- **Column:** "@ + c@ + "\n"@),
        contains(markdown_header_text(d), "- **Total records:** "@ + decimal(d.total_records as nat) + "\n"@),
        d.skipped > 0 ==> ends_with(
            markdown_header_text(d),
            "- **Skipped (invalid):** "@ + decimal(d.skipped as nat) + "\n"@ + "\n"@,
        ),
        d.skipped == 0 ==> ends_with(
            markdown_header_text(d),
            "- **Valid values:** "@ + decimal(d.valid_values as nat) + "\n"@ + "\n"@,
        ),
        contains(markdown_header_text(d), "- **Valid values:** "@ + decimal(d.valid_values as nat) + "\n"@),
{
    let title = "# BenfordLens Analysis Report\n\n"@;
    let src = line("- **Source:** "@, d.source@);
    let col = optional_line("- **Column:** "@, d.column);
    let total = line("- **Total records:** "@, decimal(d.total_records as nat));
    let valid = line("- **Valid values:** "@, decimal(d.valid_values as nat));
    let skip = skipped_line("- **Skipped (invalid):** "@, d.skipped);
    let nl = "\n"@;
    let h = markdown_header_text(d);
    assert(h == title + src + col + total + valid + skip + nl);
    assert(h.subrange(0, title.len() as int) =~= title);
    assert(h =~= title + src + (col + total + valid + skip + nl));
    lemma_contains_middle(title, src, col + total + valid + skip + nl);
    if d.column is Some {
        assert(h =~= (title + src) + col + (total + valid + skip + nl));
        lemma_contains_middle(title + src, col, total + valid + skip + nl);
    }
    assert(h =~= (title + src + col) + total + (valid + skip + nl));
    lemma_contains_middle(title + src + col, total, valid + skip + nl);
    assert(h =~= (title + src + col + total) + valid + (skip + nl));
    lemma_contains_middle(title + src + col + total, valid, skip + nl);
    if d.skipped > 0 {
        assert(h =~= (title + src + col + total + valid) + (skip + nl));
        lemma_ends_with_last(title + src + col + total + valid, skip + nl);
    } else {
        assert(h =~= (title + src + col + total) + (valid + nl));
        lemma_ends_with_last(title + src + col + total, valid + nl);
    }
}

/// The text header reports the dataset as it is: it opens with the boxed
/// title and holds the source line, the column line when a column was
/// selected, and the lines of the total and valid counts, each written in
/// decimal. Its last line is the skipped count when records were skipped,
/// and the valid count when none were.
pub proof fn lemma_text_header_reports_dataset(d: DatasetSummary)
    ensures
        starts_with(text_header_text(d), "╔"@),
        contains(text_header_text(d), "  Source:          "@ + d.source@ + "\n"@),
        d.column matches Some(c) ==> contains(text_header_text(d), "  Column:          "@ + c@ + "\n"@),
        contains(text_header_text(d), "  Total records:   "@ + decimal(d.total_records as nat) + "\n"@),
        contains(text_header_text(d), "  Valid values:    "@ + decimal(d.valid_values as nat) + "\n"@),
        d.skipped > 0 ==> ends_with(
            text_header_text(d),
            "  Skipped (invalid): "@ + decimal(d.skipped as nat) + "\n"@,
        ),
        d.skipped == 0 ==> ends_with(
            text_header_text(d),
            "  Valid values:    "@ + decimal(d.valid_values as nat) + "\n"@,
        ),
{
    let title = "╔══════════════════════════════════════════════════════════╗\n"@
        + "║              BenfordLens Analysis Report                ║\n"@
        + "╚══════════════════════════════════════════════════════════╝\n\n"@;
    let src = line("  Source:          "@, d.source@);
    let col = optional_line("  Column:          "@, d.column);
    let total = line("  Total records:   "@, decimal(d.total_records as nat));
    let valid = line("  Valid values:    "@, decimal(d.valid_values as nat));
    let skip = skipped_line("  Skipped (invalid): "@, d.skipped);
    let h = text_header_text(d);
    reveal_strlit("╔");
    reveal_strlit("╔══════════════════════════════════════════════════════════╗\n");
    assert(h == title + src + col + total + valid + skip);
    assert(h.subrange(0, 1) =~= "╔"@);
    assert(h =~= title + src + (col + total + valid + skip));
    lemma_contains_middle(title, src, col + total + valid + skip);
    if d.column is Some {
        assert(h =~= (title + src) + col + (total + valid + skip));
        lemma_contains_middle(title + src, col, total + valid + skip);
    }
    assert(h =~= (title + src + col) + total + (valid + skip));
    lemma_contains_middle(title + src + col, total, valid + skip);
    assert(h =~= (title + src + col + total) + valid + skip);
    lemma_contains_middle(title + src + col + total, valid, skip);
    if d.skipped > 0 {
        lemma_ends_with_last(title + src + col + total + valid, skip);
    } else {
        assert(h =~= (title + src + col + total) + valid);
        lemma_ends_with_last(title + src + col + total, valid);
    }
}

/// The HTML header reports the dataset as it is: it opens with the document
/// type, holds the source paragraph and, when a column was selected, the
/// column paragraph, each with its text escaped, and ends with the counts'
/// paragraph: the total and valid counts in decimal, then the skipped count
/// when records were skipped.
pub proof fn lemma_html_header_reports_dataset(d: DatasetSummary)
    ensures
        starts_with(html_header_text(d), "<!DOCTYPE html>\n"@),
        contains(html_header_text(d), "<p><strong>Source:</strong> "@ + html_escaped(d.source@) + "</p>\n"@),
        d.column matches Some(c) ==> contains(
            html_header_text(d),
            "<p><strong>Column:</strong> "@ + html_escaped(c@) + "</p>\n"@,
        ),
        d.skipped > 0 ==> ends_with(
            html_header_text(d),
            "<p><strong>Total records:</strong> "@ + decimal(d.total_records as nat)
                + " | <strong>Valid values:</strong> "@ + decimal(d.valid_values as nat)
                + " | <strong>Skipped:</strong> "@ + decimal(d.skipped as nat) + "</p>\n"@,
        ),
        d.skipped == 0 ==> ends_with(
            html_header_text(d),
            "<p><strong>Total records:</strong> "@ + decimal(d.total_records as nat)
                + " | <strong>Valid values:</strong> "@ + decimal(d.valid_values as nat) + "</p>\n"@,
        ),
{
    let pre = html_preamble();
    let src = "<p><strong>Source:</strong> "@ + html_escaped(d.source@) + "</p>\n"@;
    let col = html_column_part(d.column);
    let counts = "<p><strong>Total records:</strong> "@ + decimal(d.total_records as nat)
        + " | <strong>Valid values:</strong> "@ + decimal(d.valid_values as nat)
        + html_skipped_part(d.skipped) + "</p>\n"@;
    let h = html_header_text(d);
    let doctype = "<!DOCTYPE html>\n"@;
    reveal_strlit("<!DOCTYPE html>\n");
    reveal_strlit("<!DOCTYPE html>\n<html lang=\"en\">\n<head>\n");
    assert(h =~= pre + src + col + counts);
    assert(h.subrange(0, doctype.len() as int) =~= doctype);
    assert(h =~= pre + src + (col + counts));
    lemma_contains_middle(pre, src, col + counts);
    if d.column is Some {
        assert(h =~= (pre + src) + col + counts);
        lemma_contains_middle(pre + src, col, counts);
    }
    lemma_ends_with_last(pre + src + col, counts);
    if d.skipped > 0 {
        assert(counts =~= "<p><strong>Total records:</strong> "@ + decimal(d.total_records as nat)
            + " | <strong>Valid values:</strong> "@ + decimal(d.valid_values as nat)
            + " | <strong>Skipped:</strong> "@ + decimal(d.skipped as nat) + "</p>\n"@);
    } else {
        assert(counts =~= "<p><strong>Total records:</strong> "@ + decimal(d.total_records as nat)
            + " | <strong>Valid values:</strong> "@ + decimal(d.valid_values as nat) + "</p>\n"@);
    }
}

/// Appends `prefix`, `value` and a line break.
fn append_line(out: &mut String, prefix: &str, value: &str)
    ensures
        final(out)@ == old(out)@ + line(prefix@, value@),
{
    out.append(prefix);
    out.append(value);
    out.append("\n");
    assert(final(out)@ =~= old(out)@ + line(prefix@, value@));
}

/// Appends the line of an optional value, if there is one.
fn append_optional_line(out: &mut String, prefix: &str, value: &Option<String>)
    ensures
        final(out)@ == old(out)@ + optional_line(prefix@, *value),
{
    match value {
        Some(v) => append_line(out, prefix, v.as_str()),
        None => {
            assert(old(out)@ + optional_line(prefix@, *value) =~= old(out)@);
        },
    }
}

/// Appends the line of a skipped count, if it is not zero.
fn append_skipped_line(out: &mut String, prefix: &str, skipped: usize)
    ensures
        final(out)@ == old(out)@ + skipped_line(prefix@, skipped),
{
    if skipped > 0 {
        let n = decimal_text(skipped);
        append_line(out, prefix, n.as_str());
    } else {
        assert(old(out)@ + skipped_line(prefix@, skipped) =~= old(out)@);
    }
}

/// The header of a text report for a dataset.
pub fn text_header(dataset: &DatasetSummary) -> (r: String)
    ensures
        r@ == text_header_text(*dataset),
{
    let mut out = String::new();
    out.append("╔══════════════════════════════════════════════════════════╗\n");
    out.append("║              BenfordLens Analysis Report                ║\n");
    out.append("╚══════════════════════════════════════════════════════════╝\n\n");
    append_line(&mut out, "  Source:          ", dataset.source.as_str());
    append_optional_line(&mut out, "  Column:          ", &dataset.column);
    let total = decimal_text(dataset.total_records);
    append_line(&mut out, "  Total records:   ", total.as_str());
    let valid = decimal_text(dataset.valid_values);
    append_line(&mut out, "  Valid values:    ", valid.as_str());
    append_skipped_line(&mut out, "  Skipped (invalid): ", dataset.skipped);
    assert(out@ =~= text_header_text(*dataset));
    out
}

/// The header of a markdown report for a dataset.
pub fn markdown_header(dataset: &DatasetSummary) -> (r: String)
    ensures
        r@ == markdown_header_text(*dataset),
{
    let mut out = String::new();
    out.append("# BenfordLens Analysis Report\n\n");
    append_line(&mut out, "- **Source:** ", dataset.source.as_str());
    append_optional_line(&mut out, "- **Column:** ", &dataset.column);
    let total = decimal_text(dataset.total_records);
    append_line(&mut out, "- **Total records:** ", total.as_str());
    let valid = decimal_text(dataset.valid_values);
    append_line(&mut out, "- **Valid values:** ", valid.as_str());
    append_skipped_line(&mut out, "- **Skipped (invalid):** ", dataset.skipped);
    out.append("\n");
    assert(out@ =~= markdown_header_text(*dataset));
    out
}

/// The header of an HTML report for a dataset: the document head, the
/// style sheet, the title, and the dataset's source, column and counts.
pub fn html_header(dataset: &DatasetSummary) -> (r: String)
    ensures
        r@ == html_header_text(*dataset),
{
    let mut out = String::new();
    out.append("<!DOCTYPE html>\n<html lang=\"en\">\n<head>\n");
    out.append("<meta charset=\"UTF-8\">\n");
    out.append("<meta name=\"viewport\" content=\"width=device-width, initial-scale=1.0\">\n");
    out.append("<title>BenfordLens Analysis Report</title>\n");
    out.append("<style>\n");
    out.append("body { font-family: -apple-system, sans-serif; max-width: 900px; margin: 2em auto; padding: 0 1em; }\n");
    out.append("table { border-collapse: collapse; width: 100%; margin: 1em 0; }\n");
    out.append("th, td { border: 1px solid #ddd; padding: 8px; text-align: left; }\n");
    out.append("th { background: #f4f4f4; }\n");
    out.append(".risk-low { color: green; }\n");
    out.append(".risk-moderate { color: orange; }\n");
    out.append(".risk-high { color: red; }\n");
    out.append(".risk-critical { color: darkred; font-weight: bold; }\n");
    out.append(".sig { background: #ffdddd; }\n");
    out.append("</style>\n</head>\n<body>\n");
    out.append("<h1>BenfordLens Analysis Report</h1>\n");
    assert(out@ =~= html_preamble());
    let ghost pre = out@;
    out.append("<p><strong>Source:</strong> ");
    let src = html_escape(dataset.source.as_str());
    out.append(src.as_str());
    out.append("</p>\n");
    let ghost with_source = out@;
    match &dataset.column {
        Some(c) => {
            out.append("<p><strong>Column:</strong> ");
            let e = html_escape(c.as_str());
            out.append(e.as_str());
            out.append("</p>\n");
            assert(out@ =~= with_source + html_column_part(dataset.column));
        },
        None => {
            assert(out@ =~= with_source + html_column_part(dataset.column));
        },
    }
    let ghost with_column = out@;
    out.append("<p><strong>Total records:</strong> ");
    let total = decimal_text(dataset.total_records);
    out.append(total.as_str());
    out.append(" | <strong>Valid values:</strong> ");
    let valid = decimal_text(dataset.valid_values);
    out.append(valid.as_str());
    let ghost with_counts = out@;
    if dataset.skipped > 0 {
        out.append(" | <strong>Skipped:</strong> ");
        let sk = decimal_text(dataset.skipped);
        out.append(sk.as_str());
        assert(out@ =~= with_counts + html_skipped_part(dataset.skipped));
    } else {
        assert(out@ =~= with_counts + html_skipped_part(dataset.skipped));
    }
    let ghost with_skipped = out@;
    out.append("</p>\n");
    assert(with_column =~= with_source + html_column_part(dataset.column));
    assert(with_skipped =~= with_counts + html_skipped_part(dataset.skipped));
    assert(out@ =~= html_header_text(*dataset));
    out
}

} // verus!
