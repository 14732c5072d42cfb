//! The text side of data loading.
//!
//! Numbers arrive as text: fields of a CSV file, tokens of a plain-text file,
//! numbers of a JSON document. This module decides the input format from a
//! file extension, splits plain text into tokens, and normalises a numeric
//! token (currency symbols, plus signs, thousands separators, percent signs)
//! into the text that is then read as a number.

use vstd::prelude::*;
use crate::text::{
    is_white_space, is_whitespace, trim, skip_leading, skip_trailing, chars_of,
    string_from_chars, trim_chars, strip_leading_char, strip_trailing_char, remove_char, equals,
    differs, text_eq_chars, text_eq, prefixed,
};

verus! {

/// The formats a data file can have.
#[derive(Debug, Clone, Copy, PartialEq, Eq, Structural)]
pub enum InputFormat {
    /// Comma- or tab-separated values with a header row.
    Csv,
    /// A JSON document.
    Json,
    /// One JSON document per line.
    Jsonl,
    /// Numbers separated by whitespace or commas.
    PlainText,
}

/// ASCII lower case of one character; other characters are unchanged.
pub open spec fn lower_char(c: char) -> char {
    if 'A' <= c && c <= 'Z' {
        ((c as u32) + 32) as char
    } else {
        c
    }
}

/// ASCII lower case of a text.
pub open spec fn lower(s: Seq<char>) -> Seq<char> {
    s.map_values(|c: char| lower_char(c))
}

/// The format that a file extension names. The comparison ignores case
/// (no character other than ASCII letters lowercases into these names);
/// unknown extensions are read as plain text.
pub open spec fn format_of_extension(ext: Seq<char>) -> InputFormat {
    let e = lower(ext);
    if e == "csv"@ || e == "tsv"@ {
        InputFormat::Csv
    } else if e == "json"@ {
        InputFormat::Json
    } else if e == "jsonl"@ || e == "ndjson"@ {
        InputFormat::Jsonl
    } else {
        InputFormat::PlainText
    }
}

fn lower_chars(v: &Vec<char>) -> (r: Vec<char>)
    ensures
        r@ == lower(v@),
{
    let mut r: Vec<char> = Vec::new();
    let mut i: usize = 0;
    while i < v.len()
        invariant
            i <= v@.len(),
            r@.len() == i,
            forall|k: int| 0 <= k < i ==> r@[k] == lower_char(#[trigger] v@[k]),
        decreases v@.len() - i,
    {
        let c = v[i];
        let l = if 'A' <= c && c <= 'Z' {
            let code = (c as u32) + 32;
            assert(('a' as u32) <= code <= ('z' as u32));
            char_from_ascii_letter(code)
        } else {
            c
        };
        r.push(l);
        i = i + 1;
    }
    assert(r@ =~= lower(v@));
    r
}

/// The character with code `code`, a lowercase ASCII letter.
fn char_from_ascii_letter(code: u32) -> (c: char)
    requires
        ('a' as u32) <= code <= ('z' as u32),
    ensures
        c == code as char,
{
    let b = code as u8;
    b as char
}

/// Decides the input format from a file extension (without the dot).
pub fn input_format(extension: &str) -> (f: InputFormat)
    ensures
        f == format_of_extension(extension@),
{
    let e = lower_chars(&chars_of(extension));
    if text_eq_chars(&e, "csv") || text_eq_chars(&e, "tsv") {
        InputFormat::Csv
    } else if text_eq_chars(&e, "json") {
        InputFormat::Json
    } else if text_eq_chars(&e, "jsonl") || text_eq_chars(&e, "ndjson") {
        InputFormat::Jsonl
    } else {
        InputFormat::PlainText
    }
}

/// Whether `c` separates the components of a path.
pub open spec fn is_path_separator(c: char) -> bool {
    c == '/' || c == '\\'
}

/// Whether a `..` component of `path` starts at index `i`.
pub open spec fn parent_component_at(path: Seq<char>, i: int) -> bool {
    &&& 0 <= i
    &&& i + 2 <= path.len()
    &&& path[i] == '.'
    &&& path[i + 1] == '.'
    &&& (i == 0 || is_path_separator(path[i - 1]))
    &&& (i + 2 == path.len() || is_path_separator(path[i + 2]))
}

/// Whether `path` has a `..` component, one that climbs out of a directory.
pub open spec fn has_parent_component(path: Seq<char>) -> bool {
    exists|i: int| #[trigger] parent_component_at(path, i)
}

/// A `..` between separators, or at the start of a path before a
/// separator, is a parent component wherever it stands; a path in which no
/// two dots follow each other has none. A separator is `/` or `\`.
pub proof fn lemma_parent_component_found(a: Seq<char>, sep1: char, sep2: char, b: Seq<char>, path: Seq<char>)
    requires
        sep1 == '/' || sep1 == '\\',
        sep2 == '/' || sep2 == '\\',
    ensures
        has_parent_component(a + seq![sep1, '.', '.', sep2] + b),
        has_parent_component(seq!['.', '.', sep2] + b),
        has_parent_component(a + seq![sep1, '.', '.']),
        (forall|i: int| 0 <= i && i + 1 < path.len() ==> !(path[i] == '.' && #[trigger] path[i + 1] == '.'))
            ==> !has_parent_component(path),
{
    let p1 = a + seq![sep1, '.', '.', sep2] + b;
    assert(parent_component_at(p1, (a.len() + 1) as int));
    let p2 = seq!['.', '.', sep2] + b;
    assert(parent_component_at(p2, 0));
    let p3 = a + seq![sep1, '.', '.'];
    assert(parent_component_at(p3, (a.len() + 1) as int));
    if forall|i: int| 0 <= i && i + 1 < path.len() ==> !(path[i] == '.' && #[trigger] path[i + 1] == '.') {
        assert forall|i: int| !#[trigger] parent_component_at(path, i) by {
            if parent_component_at(path, i) {
                assert(path[i] == '.' && path[i + 1] == '.');
            }
        }
    }
}

/// The format read from an extension does not depend on its letter case.
pub proof fn lemma_format_ignores_case(e1: Seq<char>, e2: Seq<char>)
    requires
        lower(e1) == lower(e2),
    ensures
        format_of_extension(e1) == format_of_extension(e2),
{
}

/// Validates an input path: a path with a `..` component (separated by `/`
/// or `\`) is refused, so that input cannot climb out of the directories it
/// names.
pub fn check_path(path: &str) -> (r: Result<(), String>)
    ensures
        r is Err <==> has_parent_component(path@),
        r matches Err(e) ==> e@ == "path traversal is not allowed: "@ + path@,
{
    let v = chars_of(path);
    let n = v.len();
    let mut i: usize = 0;
    while n >= 2 && i <= n - 2
        invariant
            v@ == path@,
            n == v@.len(),
            forall|j: int| 0 <= j < i ==> !#[trigger] parent_component_at(path@, j),
        decreases n - i,
    {
        if v[i] == '.' && v[i + 1] == '.' && (i == 0 || v[i - 1] == '/' || v[i - 1] == '\\') && (i + 2
            == n || v[i + 2] == '/' || v[i + 2] == '\\') {
            assert(parent_component_at(path@, i as int));
            return Err(prefixed("path traversal is not allowed: ", path));
        }
        i = i + 1;
    }
    assert forall|j: int| !#[trigger] parent_component_at(path@, j) by {
        if 0 <= j < i {
        }
    }
    Ok(())
}

/// The text that a numeric token stands for: the token trimmed, without
/// leading `$`, then `€`, then `£`, then `+` signs, trimmed again, without
/// thousands separators (`,`) and without trailing `%` signs; `None` when
/// nothing is left.
pub open spec fn number_text(s: Seq<char>) -> Option<Seq<char>> {
    let t = trim(s);
    let u = trim(
        skip_leading(skip_leading(skip_leading(skip_leading(t, equals('$')), equals('€')), equals('£')), equals('+')),
    );
    let v = skip_trailing(u.filter(differs(',')), equals('%'));
    if t.len() == 0 || v.len() == 0 {
        None
    } else {
        Some(v)
    }
}

proof fn lemma_skip_trailing_prefix(s: Seq<char>, p: spec_fn(char) -> bool)
    ensures
        skip_trailing(s, p).len() <= s.len(),
        skip_trailing(s, p) == s.subrange(0, skip_trailing(s, p).len() as int),
        skip_trailing(s, p).len() > 0 ==> !p(skip_trailing(s, p).last()),
    decreases s.len(),
{
    if s.len() > 0 && p(s.last()) {
        lemma_skip_trailing_prefix(s.drop_last(), p);
        let r = skip_trailing(s.drop_last(), p);
        assert(s.drop_last().subrange(0, r.len() as int) =~= s.subrange(0, r.len() as int));
    } else {
        assert(s.subrange(0, s.len() as int) =~= s);
    }
}

/// The text of a cleaned number holds no thousands separator and does not
/// end in a percent sign.
pub proof fn lemma_number_text_clean(s: Seq<char>)
    ensures
        number_text(s) matches Some(v) ==> v.len() > 0 && v.last() != '%' && forall|i: int|
            0 <= i < v.len() ==> #[trigger] v[i] != ',',
{
    let t = trim(s);
    let u = trim(
        skip_leading(skip_leading(skip_leading(skip_leading(t, equals('$')), equals('€')), equals('£')), equals('+')),
    );
    let w = u.filter(differs(','));
    let v = skip_trailing(w, equals('%'));
    lemma_skip_trailing_prefix(w, equals('%'));
    assert forall|i: int| 0 <= i < v.len() implies #[trigger] v[i] != ',' by {
        assert(v[i] == w[i]);
        u.lemma_filter_pred(differs(','), i);
    }
}

/// Whether `c` is one of the ASCII digits `0`-`9`.
pub open spec fn is_decimal_digit(c: char) -> bool {
    '0' <= c && c <= '9'
}

proof fn lemma_skip_leading_keeps_digits(s: Seq<char>, p: spec_fn(char) -> bool)
    requires
        forall|c: char| #[trigger] p(c) ==> !is_decimal_digit(c),
    ensures
        skip_leading(s, p).filter(|c: char| is_decimal_digit(c)) == s.filter(|c: char| is_decimal_digit(c)),
    decreases s.len(),
{
    if s.len() > 0 && p(s[0]) {
        lemma_skip_leading_keeps_digits(s.drop_first(), p);
        assert(seq![s[0]] + s.drop_first() =~= s);
        s.drop_first().lemma_filter_prepend(s[0], |c: char| is_decimal_digit(c));
        assert(Seq::<char>::empty() + s.drop_first().filter(|c: char| is_decimal_digit(c))
            =~= s.drop_first().filter(|c: char| is_decimal_digit(c)));
    }
}

proof fn lemma_skip_trailing_keeps_digits(s: Seq<char>, p: spec_fn(char) -> bool)
    requires
        forall|c: char| #[trigger] p(c) ==> !is_decimal_digit(c),
    ensures
        skip_trailing(s, p).filter(|c: char| is_decimal_digit(c)) == s.filter(|c: char| is_decimal_digit(c)),
    decreases s.len(),
{
    if s.len() > 0 && p(s.last()) {
        lemma_skip_trailing_keeps_digits(s.drop_last(), p);
        assert(s.drop_last().push(s.last()) =~= s);
        s.drop_last().lemma_filter_push(s.last(), |c: char| is_decimal_digit(c));
    }
}

proof fn lemma_filter_keeps_digits(s: Seq<char>, q: spec_fn(char) -> bool)
    requires
        forall|c: char| is_decimal_digit(c) ==> #[trigger] q(c),
    ensures
        s.filter(q).filter(|c: char| is_decimal_digit(c)) == s.filter(|c: char| is_decimal_digit(c)),
    decreases s.len(),
{
    if s.len() > 0 {
        let init = s.drop_last();
        let x = s.last();
        lemma_filter_keeps_digits(init, q);
        assert(init.push(x) =~= s);
        init.lemma_filter_push(x, q);
        init.lemma_filter_push(x, |c: char| is_decimal_digit(c));
        if q(x) {
            init.filter(q).lemma_filter_push(x, |c: char| is_decimal_digit(c));
        }
    }
}

proof fn lemma_trim_keeps_digits(s: Seq<char>)
    ensures
        trim(s).filter(|c: char| is_decimal_digit(c)) == s.filter(|c: char| is_decimal_digit(c)),
{
    lemma_skip_leading_keeps_digits(s, |c: char| is_white_space(c));
    lemma_skip_trailing_keeps_digits(skip_leading(s, |c: char| is_white_space(c)), |c: char| is_white_space(c));
}

/// Cleaning a numeric token neither loses nor invents a digit: the digits
/// of the cleaned text are those of the token, in the same order, and a
/// token that is refused has no digit at all.
pub proof fn lemma_number_text_keeps_digits(s: Seq<char>)
    ensures
        number_text(s) matches Some(v) ==> v.filter(|c: char| is_decimal_digit(c)) == s.filter(
            |c: char| is_decimal_digit(c),
        ),
        number_text(s) is None ==> s.filter(|c: char| is_decimal_digit(c)).len() == 0,
{
    let dig = |c: char| is_decimal_digit(c);
    let t = trim(s);
    let a = skip_leading(t, equals('$'));
    let b = skip_leading(a, equals('€'));
    let c = skip_leading(b, equals('£'));
    let d = skip_leading(c, equals('+'));
    let u = trim(d);
    let w = u.filter(differs(','));
    let v = skip_trailing(w, equals('%'));
    lemma_trim_keeps_digits(s);
    lemma_skip_leading_keeps_digits(t, equals('$'));
    lemma_skip_leading_keeps_digits(a, equals('€'));
    lemma_skip_leading_keeps_digits(b, equals('£'));
    lemma_skip_leading_keeps_digits(c, equals('+'));
    lemma_trim_keeps_digits(d);
    lemma_filter_keeps_digits(u, differs(','));
    lemma_skip_trailing_keeps_digits(w, equals('%'));
    assert(v.filter(dig) == s.filter(dig));
    if t.len() == 0 {
        assert(t.filter(dig) =~= Seq::<char>::empty());
    }
    if v.len() == 0 {
        assert(v.filter(dig) =~= Seq::<char>::empty());
    }
}

proof fn lemma_filter_all(s: Seq<char>, q: spec_fn(char) -> bool)
    requires
        forall|i: int| 0 <= i < s.len() ==> #[trigger] q(s[i]),
    ensures
        s.filter(q) == s,
    decreases s.len(),
{
    if s.len() > 0 {
        let init = s.drop_last();
        assert forall|i: int| 0 <= i < init.len() implies #[trigger] q(init[i]) by {
            assert(init[i] == s[i]);
        }
        lemma_filter_all(init, q);
        assert(init.push(s.last()) =~= s);
        init.lemma_filter_push(s.last(), q);
    }
}

/// A plain number, written with digits and decimal points only, is kept
/// exactly as it is written.
pub proof fn lemma_number_text_plain(s: Seq<char>)
    requires
        s.len() > 0,
        forall|i: int| 0 <= i < s.len() ==> is_decimal_digit(#[trigger] s[i]) || s[i] == '.',
    ensures
        number_text(s) == Some(s),
{
    let ws = |c: char| is_white_space(c);
    assert(!is_white_space(s[0]));
    assert(!is_white_space(s.last()));
    assert(skip_leading(s, ws) == s);
    assert(skip_trailing(s, ws) == s);
    assert(trim(s) == s);
    assert(skip_leading(s, equals('$')) == s);
    assert(skip_leading(s, equals('€')) == s);
    assert(skip_leading(s, equals('£')) == s);
    assert(skip_leading(s, equals('+')) == s);
    lemma_filter_all(s, differs(','));
    assert(skip_trailing(s, equals('%')) == s);
}

/// A currency symbol (`$`, `€`, `£`) or a plus sign in front of a plain
/// number, and a percent sign after it, are dropped, and the number is
/// kept as it is written.
pub proof fn lemma_number_text_strips_marks(c: char, plain: Seq<char>)
    requires
        c == '$' || c == '€' || c == '£' || c == '+',
        plain.len() > 0,
        forall|i: int| 0 <= i < plain.len() ==> is_decimal_digit(#[trigger] plain[i]) || plain[i] == '.',
    ensures
        number_text(seq![c] + plain) == Some(plain),
        number_text(plain + seq!['%']) == Some(plain),
{
    let ws = |x: char| is_white_space(x);
    lemma_number_text_plain(plain);
    assert(skip_leading(plain, ws) == plain);
    assert(skip_trailing(plain, ws) == plain);
    lemma_filter_all(plain, differs(','));
    let s = seq![c] + plain;
    assert(s[0] == c);
    assert(s.last() == plain.last());
    assert(s.drop_first() =~= plain);
    assert(skip_leading(s, ws) == s);
    assert(skip_trailing(s, ws) == s);
    assert(trim(s) == s);
    assert(skip_leading(plain, equals('$')) == plain);
    assert(skip_leading(plain, equals('€')) == plain);
    assert(skip_leading(plain, equals('£')) == plain);
    assert(skip_leading(plain, equals('+')) == plain);
    assert(skip_trailing(plain, equals('%')) == plain);
    if c == '$' {
        assert(skip_leading(s, equals('$')) == plain);
    } else if c == '€' {
        assert(skip_leading(s, equals('$')) == s);
        assert(skip_leading(s, equals('€')) == plain);
    } else if c == '£' {
        assert(skip_leading(s, equals('$')) == s);
        assert(skip_leading(s, equals('€')) == s);
        assert(skip_leading(s, equals('£')) == plain);
    } else {
        assert(skip_leading(s, equals('$')) == s);
        assert(skip_leading(s, equals('€')) == s);
        assert(skip_leading(s, equals('£')) == s);
        assert(skip_leading(s, equals('+')) == plain);
    }
    let q = plain + seq!['%'];
    assert(q[0] == plain[0]);
    assert(q.last() == '%');
    assert(q.drop_last() =~= plain);
    assert(skip_leading(q, ws) == q);
    assert(skip_trailing(q, ws) == q);
    assert(trim(q) == q);
    assert(skip_leading(q, equals('$')) == q);
    assert(skip_leading(q, equals('€')) == q);
    assert(skip_leading(q, equals('£')) == q);
    assert(skip_leading(q, equals('+')) == q);
    assert forall|i: int| 0 <= i < q.len() implies #[trigger] differs(',')(q[i]) by {
        if i < plain.len() {
            assert(q[i] == plain[i]);
        }
    }
    lemma_filter_all(q, differs(','));
    assert(skip_trailing(q, equals('%')) == skip_trailing(plain, equals('%')));
}

/// Normalises a numeric token into the text of the number it stands for.
///
/// Currency symbols (`$`, `€`, `£`) and plus signs in front, surrounding
/// whitespace, thousands separators and trailing percent signs are removed.
/// Returns `None` when the token is empty once they are gone.
pub fn clean_number_text(s: &str) -> (r: Option<String>)
    ensures
        r matches Some(t) ==> number_text(s@) == Some(t@),
        r is None ==> number_text(s@) is None,
{
    let t = trim_chars(&chars_of(s));
    if t.len() == 0 {
        return None;
    }
    let a = strip_leading_char(&t, '$');
    let b = strip_leading_char(&a, '€');
    let c = strip_leading_char(&b, '£');
    let d = strip_leading_char(&c, '+');
    let u = trim_chars(&d);
    let w = remove_char(&u, ',');
    let v = strip_trailing_char(&w, '%');
    if v.len() == 0 {
        None
    } else {
        Some(string_from_chars(v.as_slice()))
    }
}

/// Whether `c` separates the tokens of a plain-text file: whitespace (line
/// breaks included) or a comma.
pub open spec fn is_token_separator(c: char) -> bool {
    is_white_space(c) || c == ','
}

/// The tokens of `s` when the token being read so far is `cur`: the maximal
/// runs of characters that are not separators, in order.
pub open spec fn tokens_from(s: Seq<char>, cur: Seq<char>) -> Seq<Seq<char>>
    decreases s.len(),
{
    if s.len() == 0 {
        if cur.len() > 0 { seq![cur] } else { seq![] }
    } else if is_token_separator(s[0]) {
        (if cur.len() > 0 { seq![cur] } else { seq![] }) + tokens_from(s.drop_first(), seq![])
    } else {
        tokens_from(s.drop_first(), cur.push(s[0]))
    }
}

/// The tokens of a plain-text input: the maximal non-empty runs of
/// characters that are neither whitespace nor commas.
pub open spec fn tokens(s: Seq<char>) -> Seq<Seq<char>> {
    tokens_from(s, seq![])
}

proof fn lemma_tokens_from_wellformed(s: Seq<char>, cur: Seq<char>)
    requires
        forall|j: int| 0 <= j < cur.len() ==> !is_token_separator(#[trigger] cur[j]),
    ensures
        forall|i: int| 0 <= i < tokens_from(s, cur).len() ==> #[trigger] tokens_from(s, cur)[i].len() > 0,
        forall|i: int, j: int|
            0 <= i < tokens_from(s, cur).len() && 0 <= j < tokens_from(s, cur)[i].len()
                ==> !is_token_separator(#[trigger] tokens_from(s, cur)[i][j]),
    decreases s.len(),
{
    let r = tokens_from(s, cur);
    let head: Seq<Seq<char>> = if cur.len() > 0 { seq![cur] } else { seq![] };
    if s.len() == 0 {
        assert(r == head);
        assert forall|i: int, j: int| 0 <= i < r.len() && 0 <= j < r[i].len() implies !is_token_separator(
            #[trigger] r[i][j],
        ) by {
            assert(r[i] == cur);
            assert(cur[j] == r[i][j]);
        }
    } else if is_token_separator(s[0]) {
        let rest = tokens_from(s.drop_first(), seq![]);
        lemma_tokens_from_wellformed(s.drop_first(), seq![]);
        assert(r == head + rest);
        assert forall|i: int| 0 <= i < r.len() implies #[trigger] r[i].len() > 0 by {
            if i >= head.len() {
                assert(r[i] == rest[i - head.len()]);
            }
        }
        assert forall|i: int, j: int| 0 <= i < r.len() && 0 <= j < r[i].len() implies !is_token_separator(
            #[trigger] r[i][j],
        ) by {
            if i >= head.len() {
                assert(r[i] == rest[i - head.len()]);
                assert(rest[i - head.len()][j] == r[i][j]);
            } else {
                assert(r[i] == cur);
                assert(cur[j] == r[i][j]);
            }
        }
    } else {
        let next = cur.push(s[0]);
        assert forall|j: int| 0 <= j < next.len() implies !is_token_separator(#[trigger] next[j]) by {
            if j < cur.len() {
                assert(next[j] == cur[j]);
            }
        }
        lemma_tokens_from_wellformed(s.drop_first(), next);
        assert(r == tokens_from(s.drop_first(), next));
    }
}

/// Every token of a plain-text input is non-empty and holds no separator:
/// no whitespace and no comma.
pub proof fn lemma_tokens_wellformed(s: Seq<char>)
    ensures
        forall|i: int| 0 <= i < tokens(s).len() ==> #[trigger] tokens(s)[i].len() > 0,
        forall|i: int, j: int|
            0 <= i < tokens(s).len() && 0 <= j < tokens(s)[i].len() ==> !is_token_separator(
                #[trigger] tokens(s)[i][j],
            ),
{
    lemma_tokens_from_wellformed(s, seq![]);
}

proof fn lemma_tokens_from_flatten(s: Seq<char>, cur: Seq<char>)
    ensures
        tokens_from(s, cur).flatten() == cur + s.filter(|c: char| !is_token_separator(c)),
    decreases s.len(),
{
    let p = |c: char| !is_token_separator(c);
    if s.len() == 0 {
        assert(s.filter(p) =~= Seq::<char>::empty());
        if cur.len() > 0 {
            seq![cur].lemma_flatten_one_element();
        }
        assert(cur + s.filter(p) =~= cur);
    } else {
        let rest = s.drop_first();
        assert(seq![s[0]] + rest =~= s);
        rest.lemma_filter_prepend(s[0], p);
        if is_token_separator(s[0]) {
            lemma_tokens_from_flatten(rest, seq![]);
            let tail = tokens_from(rest, seq![]);
            if cur.len() > 0 {
                let all = seq![cur] + tail;
                assert(all.first() == cur);
                assert(all.drop_first() =~= tail);
            } else {
                assert(seq![] + tail =~= tail);
            }
            assert(cur + s.filter(p) =~= cur + (seq![] + rest.filter(p)));
        } else {
            lemma_tokens_from_flatten(rest, cur.push(s[0]));
            assert(cur.push(s[0]) + rest.filter(p) =~= cur + (seq![s[0]] + rest.filter(p)));
        }
    }
}

/// Tokenising loses no character but the separators: the tokens, put back
/// together in order, are the input with its whitespace and commas removed.
pub proof fn lemma_tokens_keep_characters(s: Seq<char>)
    ensures
        tokens(s).flatten() == s.filter(|c: char| !is_token_separator(c)),
{
    lemma_tokens_from_flatten(s, seq![]);
    assert(Seq::<char>::empty() + s.filter(|c: char| !is_token_separator(c)) =~= s.filter(
        |c: char| !is_token_separator(c),
    ));
}

proof fn lemma_tokens_from_no_separator(s: Seq<char>, cur: Seq<char>)
    requires
        forall|i: int| 0 <= i < s.len() ==> !is_token_separator(#[trigger] s[i]),
    ensures
        tokens_from(s, cur) == (if cur.len() + s.len() > 0 { seq![cur + s] } else { Seq::<Seq<char>>::empty() }),
    decreases s.len(),
{
    if s.len() == 0 {
        assert(cur + s =~= cur);
    } else {
        assert(!is_token_separator(s[0]));
        let rest = s.drop_first();
        assert forall|i: int| 0 <= i < rest.len() implies !is_token_separator(#[trigger] rest[i]) by {
            assert(rest[i] == s[i + 1]);
        }
        lemma_tokens_from_no_separator(rest, cur.push(s[0]));
        assert(cur.push(s[0]) + rest =~= cur + s);
    }
}

proof fn lemma_tokens_from_split(a: Seq<char>, c: char, b: Seq<char>, cur: Seq<char>)
    requires
        is_token_separator(c),
    ensures
        tokens_from(a + seq![c] + b, cur) == tokens_from(a, cur) + tokens(b),
    decreases a.len(),
{
    let s = a + seq![c] + b;
    let head: Seq<Seq<char>> = if cur.len() > 0 { seq![cur] } else { seq![] };
    if a.len() == 0 {
        assert(s[0] == c);
        assert(s.drop_first() =~= b);
    } else {
        assert(s[0] == a[0]);
        assert(s.drop_first() =~= a.drop_first() + seq![c] + b);
        if is_token_separator(a[0]) {
            lemma_tokens_from_split(a.drop_first(), c, b, seq![]);
            assert(head + (tokens_from(a.drop_first(), seq![]) + tokens(b)) =~= (head + tokens_from(
                a.drop_first(),
                seq![],
            )) + tokens(b));
        } else {
            lemma_tokens_from_split(a.drop_first(), c, b, cur.push(a[0]));
        }
    }
}

/// A text with no whitespace and no comma is read as one token, whole: a
/// token is never cut inside (no split at a dot, a sign or any other
/// character); an empty text has no tokens.
pub proof fn lemma_tokens_unbroken(s: Seq<char>)
    requires
        forall|i: int| 0 <= i < s.len() ==> !is_white_space(#[trigger] s[i]) && s[i] != ',',
    ensures
        s.len() > 0 ==> tokens(s) == seq![s],
        s.len() == 0 ==> tokens(s) == Seq::<Seq<char>>::empty(),
{
    lemma_tokens_from_no_separator(s, seq![]);
    assert(Seq::<char>::empty() + s =~= s);
}

/// Tokens are split at separators and only there: the tokens of a text
/// with a whitespace character or a comma `c` in it are the tokens before
/// `c` followed by the tokens after it.
pub proof fn lemma_tokens_split_at_separator(a: Seq<char>, c: char, b: Seq<char>)
    requires
        is_white_space(c) || c == ',',
    ensures
        tokens(a + seq![c] + b) == tokens(a) + tokens(b),
{
    lemma_tokens_from_split(a, c, b, seq![]);
}

/// Splits plain-text input into its tokens: numbers are separated by line
/// breaks, other whitespace or commas, and empty pieces are dropped.
pub fn plain_text_tokens(input: &str) -> (r: Vec<String>)
    ensures
        r@.len() == tokens(input@).len(),
        forall|i: int| 0 <= i < r@.len() ==> #[trigger] r@[i]@ == tokens(input@)[i],
{
    let v = chars_of(input);
    let mut out: Vec<String> = Vec::new();
    let mut cur: Vec<char> = Vec::new();
    let ghost mut done: Seq<Seq<char>> = seq![];
    let mut i: usize = 0;
    assert(v@.subrange(0, v@.len() as int) =~= v@);
    while i < v.len()
        invariant
            i <= v@.len(),
            v@ == input@,
            out@.len() == done.len(),
            forall|k: int| 0 <= k < out@.len() ==> #[trigger] out@[k]@ == done[k],
            tokens(input@) == done + tokens_from(v@.subrange(i as int, v@.len() as int), cur@),
        decreases v@.len() - i,
    {
        let c = v[i];
        let ghost rest = v@.subrange(i as int, v@.len() as int);
        assert(rest.drop_first() =~= v@.subrange(i + 1, v@.len() as int));
        if is_whitespace(c) || c == ',' {
            if cur.len() > 0 {
                let tok = string_from_chars(cur.as_slice());
                out.push(tok);
                proof {
                    assert(done.push(cur@) + tokens_from(rest.drop_first(), seq![]) =~= done + (seq![cur@]
                        + tokens_from(rest.drop_first(), seq![])));
                    done = done.push(cur@);
                }
                cur = Vec::new();
            } else {
                proof {
                    assert(cur@ =~= Seq::<char>::empty());
                    assert(seq![] + tokens_from(rest.drop_first(), seq![]) =~= tokens_from(rest.drop_first(), seq![]));
                }
            }
        } else {
            cur.push(c);
        }
        i = i + 1;
    }
    if cur.len() > 0 {
        let tok = string_from_chars(cur.as_slice());
        out.push(tok);
        proof {
            assert(v@.subrange(i as int, v@.len() as int) =~= Seq::<char>::empty());
            done = done.push(cur@);
        }
    } else {
        proof {
            assert(v@.subrange(i as int, v@.len() as int) =~= Seq::<char>::empty());
            assert(done + seq![] =~= done);
        }
    }
    assert(tokens(input@) =~= done);
    out
}

/// A JSON document as the loader reads it. Numbers keep the text that
/// `serde_json` writes for them; object members are in the order the parsed
/// map iterates them (by key), with distinct keys.
#[derive(Debug)]
pub enum JsonValue {
    Null,
    Bool(bool),
    Number(String),
    Text(String),
    Array(Vec<JsonValue>),
    Object(Vec<(String, JsonValue)>),
}

/// The texts of the numbers found in a JSON value, in document order.
/// Arrays are searched element by element with the same column. In an
/// object, a column selects the member of that name (searched without a
/// column); without a column every member is searched.
pub open spec fn json_numbers(v: JsonValue, column: Option<Seq<char>>) -> Seq<Seq<char>>
    decreases v, 0int,
{
    match v {
        JsonValue::Number(t) => seq![t@],
        JsonValue::Array(items) => numbers_of_items(items@, column, 0),
        JsonValue::Object(fields) => match column {
            Some(c) => numbers_of_column(fields@, c, 0),
            None => numbers_of_members(fields@, 0),
        },
        _ => seq![],
    }
}

/// The numbers of `items` from index `i` on, each searched with `column`.
pub open spec fn numbers_of_items(items: Seq<JsonValue>, column: Option<Seq<char>>, i: int) -> Seq<Seq<char>>
    decreases items, items.len() - i,
{
    if 0 <= i < items.len() {
        json_numbers(items[i], column) + numbers_of_items(items, column, i + 1)
    } else {
        seq![]
    }
}

/// The numbers of the members of `fields` from index `i` on, each searched
/// without a column.
pub open spec fn numbers_of_members(fields: Seq<(String, JsonValue)>, i: int) -> Seq<Seq<char>>
    decreases fields, fields.len() - i,
{
    if 0 <= i < fields.len() {
        json_numbers(fields[i].1, None) + numbers_of_members(fields, i + 1)
    } else {
        seq![]
    }
}

/// The numbers of the first member named `key` at or after index `i`,
/// searched without a column; none when there is no such member.
pub open spec fn numbers_of_column(fields: Seq<(String, JsonValue)>, key: Seq<char>, i: int) -> Seq<Seq<char>>
    decreases fields, fields.len() - i,
{
    if 0 <= i < fields.len() {
        if fields[i].0@ == key {
            json_numbers(fields[i].1, None)
        } else {
            numbers_of_column(fields, key, i + 1)
        }
    } else {
        seq![]
    }
}

proof fn lemma_items_flatten(items: Seq<JsonValue>, column: Option<Seq<char>>, i: int)
    requires
        0 <= i <= items.len(),
    ensures
        numbers_of_items(items, column, i) == Seq::new(
            (items.len() - i) as nat,
            |k: int| json_numbers(items[i + k], column),
        ).flatten(),
    decreases items.len() - i,
{
    let all = Seq::new((items.len() - i) as nat, |k: int| json_numbers(items[i + k], column));
    if i < items.len() {
        lemma_items_flatten(items, column, i + 1);
        assert(all.drop_first() =~= Seq::new(
            (items.len() - (i + 1)) as nat,
            |k: int| json_numbers(items[i + 1 + k], column),
        ));
    }
}

proof fn lemma_members_flatten(fields: Seq<(String, JsonValue)>, i: int)
    requires
        0 <= i <= fields.len(),
    ensures
        numbers_of_members(fields, i) == Seq::new(
            (fields.len() - i) as nat,
            |k: int| json_numbers(fields[i + k].1, None),
        ).flatten(),
    decreases fields.len() - i,
{
    let all = Seq::new((fields.len() - i) as nat, |k: int| json_numbers(fields[i + k].1, None));
    if i < fields.len() {
        lemma_members_flatten(fields, i + 1);
        assert(all.drop_first() =~= Seq::new(
            (fields.len() - (i + 1)) as nat,
            |k: int| json_numbers(fields[i + 1 + k].1, None),
        ));
    }
}

proof fn lemma_column_from(fields: Seq<(String, JsonValue)>, key: Seq<char>, i: int, from: int)
    requires
        0 <= from <= i < fields.len(),
        fields[i].0@ == key,
        forall|j: int| from <= j < i ==> (#[trigger] fields[j]).0@ != key,
    ensures
        numbers_of_column(fields, key, from) == json_numbers(fields[i].1, None),
    decreases i - from,
{
    if from < i {
        lemma_column_from(fields, key, i, from + 1);
    }
}

proof fn lemma_column_none_from(fields: Seq<(String, JsonValue)>, key: Seq<char>, from: int)
    requires
        0 <= from <= fields.len(),
        forall|j: int| from <= j < fields.len() ==> (#[trigger] fields[j]).0@ != key,
    ensures
        numbers_of_column(fields, key, from) == Seq::<Seq<char>>::empty(),
    decreases fields.len() - from,
{
    if from < fields.len() {
        lemma_column_none_from(fields, key, from + 1);
    }
}

/// The numbers of a single JSON value: a number gives its own text, and
/// null, a boolean or a string gives none, whatever the column.
pub proof fn lemma_json_scalar_numbers(v: JsonValue, column: Option<Seq<char>>)
    requires
        !(v is Array),
        !(v is Object),
    ensures
        v matches JsonValue::Number(t) ==> json_numbers(v, column) == seq![t@],
        !(v is Number) ==> json_numbers(v, column) == Seq::<Seq<char>>::empty(),
{
}

/// An array's numbers are those of its elements, each searched with the
/// same column, one element after another.
pub proof fn lemma_json_array_numbers(items: Vec<JsonValue>, column: Option<Seq<char>>)
    ensures
        json_numbers(JsonValue::Array(items), column) == Seq::new(
            items@.len(),
            |k: int| json_numbers(items@[k], column),
        ).flatten(),
{
    lemma_items_flatten(items@, column, 0);
    assert(Seq::new((items@.len() - 0) as nat, |k: int| json_numbers(items@[0 + k], column)) =~= Seq::new(
        items@.len(),
        |k: int| json_numbers(items@[k], column),
    ));
}

/// Without a column, an object's numbers are those of all its members'
/// values, member after member.
pub proof fn lemma_json_object_numbers(fields: Vec<(String, JsonValue)>)
    ensures
        json_numbers(JsonValue::Object(fields), None) == Seq::new(
            fields@.len(),
            |k: int| json_numbers(fields@[k].1, None),
        ).flatten(),
{
    lemma_members_flatten(fields@, 0);
    assert(Seq::new((fields@.len() - 0) as nat, |k: int| json_numbers(fields@[0 + k].1, None)) =~= Seq::new(
        fields@.len(),
        |k: int| json_numbers(fields@[k].1, None),
    ));
}

/// With a column named, an object gives exactly the numbers of its member
/// of that name (all of them, searched without a column), and nothing of
/// any other member.
pub proof fn lemma_json_column_member(fields: Vec<(String, JsonValue)>, column: Seq<char>, i: int)
    requires
        0 <= i < fields@.len(),
        fields@[i].0@ == column,
        forall|j: int| 0 <= j < i ==> (#[trigger] fields@[j]).0@ != column,
    ensures
        json_numbers(JsonValue::Object(fields), Some(column)) == json_numbers(fields@[i].1, None),
{
    lemma_column_from(fields@, column, i, 0);
}

/// With a column named, an object with no member of that name gives no
/// numbers at all.
pub proof fn lemma_json_column_absent(fields: Vec<(String, JsonValue)>, column: Seq<char>)
    requires
        forall|j: int| 0 <= j < fields@.len() ==> (#[trigger] fields@[j]).0@ != column,
    ensures
        json_numbers(JsonValue::Object(fields), Some(column)) == Seq::<Seq<char>>::empty(),
{
    lemma_column_none_from(fields@, column, 0);
}

/// The view of an optional column name.
pub open spec fn column_view(column: Option<&str>) -> Option<Seq<char>> {
    match column {
        Some(c) => Some(c@),
        None => None,
    }
}

/// Appends to `out` the texts of the numbers in `json`, in document order:
/// with a column, only the member of that name of each object is searched
/// (itself without a column); arrays are searched element by element.
pub fn extract_numbers_from_json(json: &JsonValue, column: Option<&str>, out: &mut Vec<String>)
    ensures
        final(out).deep_view() == old(out).deep_view() + json_numbers(*json, column_view(column)),
    decreases *json, 0int,
{
    match json {
        JsonValue::Number(t) => {
            let ghost before = out.deep_view();
            out.push(t.clone());
            assert(out.deep_view() =~= before + seq![t@]);
        },
        JsonValue::Array(items) => {
            let mut i: usize = 0;
            let ghost start = out.deep_view();
            assert(start =~= start + (json_numbers(*json, column_view(column)).subrange(0, 0)));
            while i < items.len()
                invariant
                    i <= items@.len(),
                    *json == JsonValue::Array(*items),
                    json_numbers(*json, column_view(column)) == numbers_of_items(items@, column_view(column), 0),
                    numbers_of_items(items@, column_view(column), 0)
                        == out.deep_view().subrange(start.len() as int, out.deep_view().len() as int)
                        + numbers_of_items(items@, column_view(column), i as int),
                    start.len() <= out.deep_view().len(),
                    out.deep_view().subrange(0, start.len() as int) == start,
                decreases items@.len() - i,
            {
                let ghost before = out.deep_view();
                proof {
                    assert(decreases_to!(*json => items@[i as int]));
                }
                extract_numbers_from_json(&items[i], column, out);
                assert(out.deep_view().subrange(start.len() as int, out.deep_view().len() as int)
                    =~= before.subrange(start.len() as int, before.len() as int) + json_numbers(items@[i as int], column_view(column)));
                assert(out.deep_view().subrange(0, start.len() as int) =~= before.subrange(0, start.len() as int));
                i = i + 1;
            }
            assert(out.deep_view() =~= start + out.deep_view().subrange(start.len() as int, out.deep_view().len() as int));
        },
        JsonValue::Object(fields) => {
            match column {
                Some(c) => {
                    let mut i: usize = 0;
                    while i < fields.len()
                        invariant
                            i <= fields@.len(),
                            *json == JsonValue::Object(*fields),
                            column == Some(c),
                            out.deep_view() == old(out).deep_view(),
                            json_numbers(*json, column_view(column)) == numbers_of_column(fields@, c@, i as int),
                        decreases fields@.len() - i,
                    {
                        if text_eq(fields[i].0.as_str(), c) {
                            proof {
                                assert(decreases_to!(*json => fields@[i as int].1));
                            }
                            extract_numbers_from_json(&fields[i].1, None, out);
                            return;
                        }
                        i = i + 1;
                    }
                    assert(old(out).deep_view() + seq![] =~= old(out).deep_view());
                },
                None => {
                    let mut i: usize = 0;
                    let ghost start = out.deep_view();
                    while i < fields.len()
                        invariant
                            i <= fields@.len(),
                            *json == JsonValue::Object(*fields),
                            column is None,
                            json_numbers(*json, column_view(column)) == numbers_of_members(fields@, 0),
                            numbers_of_members(fields@, 0)
                                == out.deep_view().subrange(start.len() as int, out.deep_view().len() as int)
                                + numbers_of_members(fields@, i as int),
                            start.len() <= out.deep_view().len(),
                            out.deep_view().subrange(0, start.len() as int) == start,
                        decreases fields@.len() - i,
                    {
                        let ghost before = out.deep_view();
                        proof {
                            assert(decreases_to!(*json => fields@[i as int].1));
                        }
                        extract_numbers_from_json(&fields[i].1, None, out);
                        assert(out.deep_view().subrange(start.len() as int, out.deep_view().len() as int)
                            =~= before.subrange(start.len() as int, before.len() as int) + json_numbers(fields@[i as int].1, None));
                        assert(out.deep_view().subrange(0, start.len() as int) =~= before.subrange(0, start.len() as int));
                        i = i + 1;
                    }
                    assert(out.deep_view() =~= start + out.deep_view().subrange(start.len() as int, out.deep_view().len() as int));
                },
            }
        },
        _ => {
            assert(old(out).deep_view() + seq![] =~= old(out).deep_view());
        },
    }
}

/// The texts of the numbers of a parsed JSON document, in document order.
pub fn json_numbers_of(json: &JsonValue, column: Option<&str>) -> (r: Vec<String>)
    ensures
        r.deep_view() == json_numbers(*json, column_view(column)),
{
    let mut out: Vec<String> = Vec::new();
    extract_numbers_from_json(json, column, &mut out);
    assert(out.deep_view() =~= json_numbers(*json, column_view(column)));
    out
}

/// `serde_json`'s parsed value, carried through the conversion only.
#[verifier::external_type_specification]
#[verifier::external_body]
pub struct ExSerdeJsonValue(serde_json::Value);

/// What `serde_json` reads from the bytes `data`: the document, converted
/// variant by variant into a `JsonValue`, or the text of the error it
/// reports.
pub uninterp spec fn json_document(data: Seq<u8>) -> Result<JsonValue, Seq<char>>;

/// The view of a parse result: the document, or the error's text.
pub open spec fn parse_result_view(r: Result<JsonValue, String>) -> Result<JsonValue, Seq<char>> {
    match r {
        Ok(j) => Ok(j),
        Err(e) => Err(e@),
    }
}

/// Parses a JSON document.
///
/// Calls `serde_json::from_slice` into `serde_json::Value` and converts the
/// value with `json_value_of`; an error becomes its display text. The
/// contract only names the result (`json_document`): which bytes parse to
/// which value is `serde_json`'s grammar and is not restated here.
#[verifier::external_body]
pub fn parse_json(data: &[u8]) -> (r: Result<JsonValue, String>)
    ensures
        parse_result_view(r) == json_document(data@),
{
    match serde_json::from_slice::<serde_json::Value>(data) {
        Ok(v) => Ok(json_value_of(&v)),
        Err(e) => Err(e.to_string()),
    }
}

/// Converts a `serde_json::Value` into a `JsonValue`, one variant for one
/// variant: a number becomes the text its `Display` writes, a map's members
/// keep its iteration order. Only `parse_json` calls it.
#[verifier::external_body]
fn json_value_of(v: &serde_json::Value) -> JsonValue {
    match v {
        serde_json::Value::Null => JsonValue::Null,
        serde_json::Value::Bool(b) => JsonValue::Bool(*b),
        serde_json::Value::Number(n) => JsonValue::Number(n.to_string()),
        serde_json::Value::String(t) => JsonValue::Text(t.clone()),
        serde_json::Value::Array(a) => JsonValue::Array(a.iter().map(json_value_of).collect()),
        serde_json::Value::Object(m) => JsonValue::Object(m.iter().map(|(k, x)| (k.clone(), json_value_of(x))).collect()),
    }
}

/// Reads the numbers of a JSON file's contents: the texts of all its
/// numbers, or of those under the member named `column` of each object. A
/// document that does not parse gives `failed to parse JSON: ` and the
/// parser's message.
pub fn json_document_numbers(data: &[u8], column: Option<&str>) -> (r: Result<Vec<String>, String>)
    ensures
        r matches Ok(v) ==> (json_document(data@) matches Ok(j) && v.deep_view() == json_numbers(
            j,
            column_view(column),
        )),
        r matches Err(e) ==> (json_document(data@) matches Err(m) && e@ == "failed to parse JSON: "@ + m),
{
    match parse_json(data) {
        Ok(json) => Ok(json_numbers_of(&json, column)),
        Err(m) => Err(prefixed("failed to parse JSON: ", m.as_str())),
    }
}

/// Reads the numbers of one line (its bytes) of a JSON-lines file: `None` when the line
/// is not a JSON document, otherwise the texts of its numbers (of those
/// under `column` in objects, when a column is named).
pub fn json_line_numbers(line: &[u8], column: Option<&str>) -> (r: Option<Vec<String>>)
    ensures
        r is None <==> json_document(line@) is Err,
        r matches Some(v) ==> (json_document(line@) matches Ok(j) && v.deep_view()
            == json_numbers(j, column_view(column))),
{
    match parse_json(line) {
        Ok(json) => Some(json_numbers_of(&json, column)),
        Err(_) => None,
    }
}

/// A CSV file as the loader reads it: the header row (or the text of the
/// error reading it), and each following record's fields (or `None` for a
/// record that could not be read).
#[derive(Debug)]
pub struct CsvTable {
    pub headers: Result<Vec<String>, String>,
    pub records: Vec<Option<Vec<String>>>,
}

/// What the `csv` reader, with a header row and records of varying length,
/// reads from `data`.
pub uninterp spec fn csv_table(data: Seq<u8>) -> CsvTable;

/// Reads CSV data: the header row, then every record.
///
/// Calls `csv::ReaderBuilder` with `has_headers(true)` and `flexible(true)`
/// on the bytes, `headers()` and then `records()`, converting fields to
/// owned strings and errors to their display text (headers) or `None`
/// (records). The contract only names the result (`csv_table`): the CSV
/// grammar is the `csv` crate's and is not restated here.
#[verifier::external_body]
fn read_csv(data: &[u8]) -> (t: CsvTable)
    ensures
        t == csv_table(data@),
{
    let mut reader = csv::ReaderBuilder::new().has_headers(true).flexible(true).from_reader(data);
    let headers = match reader.headers() {
        Ok(h) => Ok(h.iter().map(String::from).collect()),
        Err(e) => Err(e.to_string()),
    };
    let mut records = Vec::new();
    for r in reader.records() {
        match r {
            Ok(rec) => records.push(Some(rec.iter().map(String::from).collect())),
            Err(_) => records.push(None),
        }
    }
    CsvTable { headers, records }
}

/// The index of the first header equal to `column` at or after `i`.
pub open spec fn header_index(headers: Seq<String>, column: Seq<char>, i: int) -> Option<int>
    decreases headers.len() - i,
{
    if 0 <= i < headers.len() {
        if headers[i]@ == column {
            Some(i)
        } else {
            header_index(headers, column, i + 1)
        }
    } else {
        None
    }
}

/// The field at `index` of a record, if the record was read and has one.
pub open spec fn field_at(record: Option<Vec<String>>, index: int) -> Option<Seq<char>> {
    match record {
        Some(fields) => if 0 <= index < fields@.len() { Some(fields@[index]@) } else { None },
        None => None,
    }
}

/// The index of the first set flag at or after `i`, if any.
pub open spec fn first_set(flags: Seq<bool>, i: int) -> Option<int>
    decreases flags.len() - i,
{
    if 0 <= i < flags.len() {
        if flags[i] {
            Some(i)
        } else {
            first_set(flags, i + 1)
        }
    } else {
        None
    }
}

/// The column read when none is named: the first numeric one (the first
/// whose flag in `numeric` is set), or the first column when none is.
pub open spec fn default_column(numeric: Seq<bool>) -> int {
    match first_set(numeric, 0) {
        Some(k) => k,
        None => 0,
    }
}

/// The texts of a column of a CSV table, one per record, or the loader's
/// error: when the header row could not be read, or when the named column
/// is not among the headers. Without a name, the first numeric column is
/// read (`numeric[j]` tells whether column `j` holds numbers), or the first
/// column when no column is numeric.
pub open spec fn column_fields(t: CsvTable, column: Option<Seq<char>>, numeric: Seq<bool>) -> Result<Seq<Option<Seq<char>>>, Seq<char>> {
    match t.headers {
        Err(e) => Err("failed to read CSV headers: "@ + e@),
        Ok(h) => {
            let index = match column {
                Some(c) => header_index(h@, c, 0),
                None => Some(default_column(numeric)),
            };
            match index {
                None => Err("column '"@ + column.unwrap() + "' not found in CSV"@),
                Some(k) => Ok(Seq::new(t.records@.len(), |r: int| field_at(t.records@[r], k))),
            }
        },
    }
}

proof fn lemma_header_index_found(headers: Seq<String>, column: Seq<char>, k: int, from: int)
    requires
        0 <= from <= k < headers.len(),
        headers[k]@ == column,
        forall|j: int| from <= j < k ==> (#[trigger] headers[j])@ != column,
    ensures
        header_index(headers, column, from) == Some(k),
    decreases k - from,
{
    if from < k {
        lemma_header_index_found(headers, column, k, from + 1);
    }
}

proof fn lemma_header_index_absent(headers: Seq<String>, column: Seq<char>, from: int)
    requires
        0 <= from <= headers.len(),
        forall|j: int| from <= j < headers.len() ==> (#[trigger] headers[j])@ != column,
    ensures
        header_index(headers, column, from) is None,
    decreases headers.len() - from,
{
    if from < headers.len() {
        lemma_header_index_absent(headers, column, from + 1);
    }
}

proof fn lemma_first_set_found(flags: Seq<bool>, k: int, from: int)
    requires
        0 <= from <= k < flags.len(),
        flags[k],
        forall|j: int| from <= j < k ==> !#[trigger] flags[j],
    ensures
        first_set(flags, from) == Some(k),
    decreases k - from,
{
    if from < k {
        lemma_first_set_found(flags, k, from + 1);
    }
}

proof fn lemma_first_set_absent(flags: Seq<bool>, from: int)
    requires
        0 <= from <= flags.len(),
        forall|j: int| from <= j < flags.len() ==> !#[trigger] flags[j],
    ensures
        first_set(flags, from) is None,
    decreases flags.len() - from,
{
    if from < flags.len() {
        lemma_first_set_absent(flags, from + 1);
    }
}

/// The fields of column `k` of a CSV table, one per record.
pub open spec fn fields_of_column(t: CsvTable, k: int) -> Seq<Option<Seq<char>>> {
    Seq::new(t.records@.len(), |r: int| field_at(t.records@[r], k))
}

/// The column a CSV loader reads, once the header row was read: the first
/// header equal to the name given; with no name, the first column flagged
/// numeric, or column 0 when no column is; a name that no header carries is
/// an error that quotes it.
pub proof fn lemma_csv_column_chosen(t: CsvTable, column: Seq<char>, numeric: Seq<bool>, k: int)
    requires
        t.headers is Ok,
    ensures
        (0 <= k < t.headers->Ok_0@.len() && t.headers->Ok_0@[k]@ == column && forall|j: int|
            0 <= j < k ==> (#[trigger] t.headers->Ok_0@[j])@ != column) ==> column_fields(t, Some(column), numeric)
            == Ok::<Seq<Option<Seq<char>>>, Seq<char>>(fields_of_column(t, k)),
        (forall|j: int| 0 <= j < t.headers->Ok_0@.len() ==> (#[trigger] t.headers->Ok_0@[j])@ != column)
            ==> column_fields(t, Some(column), numeric) == Err::<Seq<Option<Seq<char>>>, Seq<char>>(
            "column '"@ + column + "' not found in CSV"@,
        ),
        (0 <= k < numeric.len() && numeric[k] && forall|j: int| 0 <= j < k ==> !#[trigger] numeric[j])
            ==> column_fields(t, None, numeric) == Ok::<Seq<Option<Seq<char>>>, Seq<char>>(fields_of_column(t, k)),
        (forall|j: int| 0 <= j < numeric.len() ==> !#[trigger] numeric[j]) ==> column_fields(t, None, numeric)
            == Ok::<Seq<Option<Seq<char>>>, Seq<char>>(fields_of_column(t, 0)),
{
    let h = t.headers->Ok_0@;
    if 0 <= k < h.len() && h[k]@ == column && forall|j: int| 0 <= j < k ==> (#[trigger] h[j])@ != column {
        lemma_header_index_found(h, column, k, 0);
    }
    if forall|j: int| 0 <= j < h.len() ==> (#[trigger] h[j])@ != column {
        lemma_header_index_absent(h, column, 0);
    }
    if 0 <= k < numeric.len() && numeric[k] && forall|j: int| 0 <= j < k ==> !#[trigger] numeric[j] {
        lemma_first_set_found(numeric, k, 0);
    }
    if forall|j: int| 0 <= j < numeric.len() ==> !#[trigger] numeric[j] {
        lemma_first_set_absent(numeric, 0);
    }
}

/// The view of an optional field.
pub open spec fn field_view(o: Option<String>) -> Option<Seq<char>> {
    match o {
        Some(s) => Some(s@),
        None => None,
    }
}

/// The view of a list of optional fields.
pub open spec fn fields_view(v: Seq<Option<String>>) -> Seq<Option<Seq<char>>> {
    Seq::new(v.len(), |i: int| field_view(v[i]))
}

/// The index of the first header equal to `column`.
fn find_header(headers: &Vec<String>, column: &str) -> (r: Option<usize>)
    ensures
        r matches Some(k) ==> header_index(headers@, column@, 0) == Some(k as int),
        r is None ==> header_index(headers@, column@, 0) is None,
{
    let mut i: usize = 0;
    while i < headers.len()
        invariant
            i <= headers@.len(),
            header_index(headers@, column@, 0) == header_index(headers@, column@, i as int),
        decreases headers@.len() - i,
    {
        if text_eq(headers[i].as_str(), column) {
            return Some(i);
        }
        i = i + 1;
    }
    None
}

/// Selects the fields of a column of a CSV table: one entry per record,
/// `None` for a record that could not be read or has no such field.
pub fn csv_column_fields(table: &CsvTable, column: Option<&str>, numeric: &[bool]) -> (r: Result<Vec<Option<String>>, String>)
    ensures
        r matches Ok(v) ==> column_fields(*table, column_view(column), numeric@) == Ok::<Seq<Option<Seq<char>>>, Seq<char>>(fields_view(v@)),
        r matches Err(e) ==> column_fields(*table, column_view(column), numeric@) == Err::<Seq<Option<Seq<char>>>, Seq<char>>(e@),
{
    let headers = match &table.headers {
        Err(e) => {
            return Err(prefixed("failed to read CSV headers: ", e.as_str()));
        },
        Ok(h) => h,
    };
    let index: usize = match column {
        Some(c) => match find_header(headers, c) {
            Some(k) => k,
            None => {
                let mut msg = prefixed("column '", c);
                msg.append("' not found in CSV");
                return Err(msg);
            },
        },
        None => first_numeric_column(numeric),
    };
    let mut out: Vec<Option<String>> = Vec::new();
    let mut r: usize = 0;
    while r < table.records.len()
        invariant
            r <= table.records@.len(),
            out@.len() == r,
            forall|j: int| 0 <= j < r ==> #[trigger] field_view(out@[j]) == field_at(table.records@[j], index as int),
        decreases table.records@.len() - r,
    {
        let f = match &table.records[r] {
            Some(fields) => if index < fields.len() { Some(fields[index].clone()) } else { None },
            None => None,
        };
        out.push(f);
        r = r + 1;
    }
    assert(fields_view(out@) =~= Seq::new(table.records@.len(), |j: int| field_at(table.records@[j], index as int)));
    Ok(out)
}

/// Reads CSV data into its header row and records.
pub fn read_csv_table(data: &[u8]) -> (t: CsvTable)
    ensures
        t == csv_table(data@),
{
    read_csv(data)
}

/// The column to read when none is named: the first one flagged numeric,
/// or the first column when none is.
pub fn first_numeric_column(numeric: &[bool]) -> (k: usize)
    ensures
        k == default_column(numeric@),
{
    let mut i: usize = 0;
    while i < numeric.len()
        invariant
            i <= numeric@.len(),
            first_set(numeric@, 0) == first_set(numeric@, i as int),
        decreases numeric@.len() - i,
    {
        if numeric[i] {
            return i;
        }
        i = i + 1;
    }
    0
}

} // verus!
