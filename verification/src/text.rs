//! Character-level text helpers shared by the loaders and the reports.

use vstd::prelude::*;

verus! {

/// Unicode `White_Space` characters (PropList.txt), the set that
/// `char::is_whitespace` and `str::trim` use.
pub open spec fn is_white_space(c: char) -> bool {
    ||| ('\u{9}' <= c && c <= '\u{d}')
    ||| c == ' '
    ||| c == '\u{85}'
    ||| c == '\u{a0}'
    ||| c == '\u{1680}'
    ||| ('\u{2000}' <= c && c <= '\u{200a}')
    ||| c == '\u{2028}'
    ||| c == '\u{2029}'
    ||| c == '\u{202f}'
    ||| c == '\u{205f}'
    ||| c == '\u{3000}'
}

/// Whether `c` is a Unicode whitespace character (`char::is_whitespace`).
pub fn is_whitespace(c: char) -> (b: bool)
    ensures
        b == is_white_space(c),
{
    ('\u{9}' <= c && c <= '\u{d}') || c == ' ' || c == '\u{85}' || c == '\u{a0}' || c == '\u{1680}'
        || ('\u{2000}' <= c && c <= '\u{200a}') || c == '\u{2028}' || c == '\u{2029}'
        || c == '\u{202f}' || c == '\u{205f}' || c == '\u{3000}'
}

/// Appends one character to a string.
///
/// Calls `String::push`; its documentation states that the character is
/// appended to the end of the string, which is what the contract claims.
#[verifier::external_body]
pub(crate) fn push_char(s: &mut String, c: char)
    ensures
        final(s)@ == old(s)@.push(c),
{
    s.push(c);
}

/// The characters of a string slice, in order.
pub fn chars_of(s: &str) -> (v: Vec<char>)
    ensures
        v@ == s@,
{
    let mut v: Vec<char> = Vec::new();
    for c in it: s.chars()
        invariant
            v@ == it.seq().take(it.index() as int),
            it.seq() == s@,
    {
        v.push(c);
    }
    v
}

/// The string made of `chars`, in order.
pub fn string_from_chars(chars: &[char]) -> (s: String)
    ensures
        s@ == chars@,
{
    let mut s = String::new();
    let mut i: usize = 0;
    while i < chars.len()
        invariant
            i <= chars@.len(),
            s@ == chars@.take(i as int),
        decreases chars@.len() - i,
    {
        push_char(&mut s, chars[i]);
        assert(chars@.take(i + 1) =~= chars@.take(i as int).push(chars@[i as int]));
        i = i + 1;
    }
    assert(chars@.take(i as int) =~= chars@);
    s
}

/// The predicate "is the character `c`".
pub open spec fn equals(c: char) -> spec_fn(char) -> bool {
    |x: char| x == c
}

/// The predicate "is not the character `c`".
pub open spec fn differs(c: char) -> spec_fn(char) -> bool {
    |x: char| x != c
}

/// `s` without its longest prefix of characters satisfying `p`.
pub open spec fn skip_leading(s: Seq<char>, p: spec_fn(char) -> bool) -> Seq<char>
    decreases s.len(),
{
    if s.len() > 0 && p(s[0]) {
        skip_leading(s.drop_first(), p)
    } else {
        s
    }
}

/// `s` without its longest suffix of characters satisfying `p`.
pub open spec fn skip_trailing(s: Seq<char>, p: spec_fn(char) -> bool) -> Seq<char>
    decreases s.len(),
{
    if s.len() > 0 && p(s.last()) {
        skip_trailing(s.drop_last(), p)
    } else {
        s
    }
}

/// `s` without leading and trailing whitespace (`str::trim`).
pub open spec fn trim(s: Seq<char>) -> Seq<char> {
    skip_trailing(skip_leading(s, |c: char| is_white_space(c)), |c: char| is_white_space(c))
}

proof fn lemma_skip_leading_step(s: Seq<char>, p: spec_fn(char) -> bool, i: int)
    requires
        0 <= i < s.len(),
        p(s[i]),
    ensures
        skip_leading(s.subrange(i, s.len() as int), p) == skip_leading(s.subrange(i + 1, s.len() as int), p),
{
    assert(s.subrange(i, s.len() as int).drop_first() =~= s.subrange(i + 1, s.len() as int));
}

proof fn lemma_skip_trailing_step(s: Seq<char>, p: spec_fn(char) -> bool, lo: int, j: int)
    requires
        0 <= lo < j <= s.len(),
        p(s[j - 1]),
    ensures
        skip_trailing(s.subrange(lo, j), p) == skip_trailing(s.subrange(lo, j - 1), p),
{
    assert(s.subrange(lo, j).drop_last() =~= s.subrange(lo, j - 1));
}

/// The index of the first character at or after `from` that is not whitespace
/// (or the length when there is none).
fn skip_whitespace_from(v: &Vec<char>, from: usize) -> (i: usize)
    requires
        from <= v@.len(),
    ensures
        from <= i <= v@.len(),
        skip_leading(v@.subrange(from as int, v@.len() as int), |c: char| is_white_space(c))
            == skip_leading(v@.subrange(i as int, v@.len() as int), |c: char| is_white_space(c)),
        i < v@.len() ==> !is_white_space(v@[i as int]),
{
    let ghost p = |c: char| is_white_space(c);
    let mut i = from;
    while i < v.len() && is_whitespace(v[i])
        invariant
            p == (|c: char| is_white_space(c)),
            from <= i <= v@.len(),
            skip_leading(v@.subrange(from as int, v@.len() as int), p)
                == skip_leading(v@.subrange(i as int, v@.len() as int), p),
        decreases v@.len() - i,
    {
        proof {
            lemma_skip_leading_step(v@, p, i as int);
        }
        i = i + 1;
    }
    i
}

/// The characters of `v` between `lo` and `hi`.
pub fn sub_chars(v: &Vec<char>, lo: usize, hi: usize) -> (r: Vec<char>)
    requires
        lo <= hi <= v@.len(),
    ensures
        r@ == v@.subrange(lo as int, hi as int),
{
    let mut r: Vec<char> = Vec::new();
    let mut k = lo;
    while k < hi
        invariant
            lo <= k <= hi <= v@.len(),
            r@ == v@.subrange(lo as int, k as int),
        decreases hi - k,
    {
        r.push(v[k]);
        assert(v@.subrange(lo as int, k + 1) =~= v@.subrange(lo as int, k as int).push(v@[k as int]));
        k = k + 1;
    }
    r
}

/// `v` without leading and trailing whitespace.
pub fn trim_chars(v: &Vec<char>) -> (r: Vec<char>)
    ensures
        r@ == trim(v@),
{
    let ghost p = |c: char| is_white_space(c);
    let n = v.len();
    let i = skip_whitespace_from(v, 0);
    proof {
        assert(v@.subrange(0, n as int) =~= v@);
        if i < n {
            assert(skip_leading(v@.subrange(i as int, n as int), p) == v@.subrange(i as int, n as int));
        } else {
            assert(v@.subrange(i as int, n as int) =~= Seq::<char>::empty());
        }
    }
    let mut j = n;
    while j > i && is_whitespace(v[j - 1])
        invariant
            p == (|c: char| is_white_space(c)),
            i <= j <= n == v@.len(),
            skip_leading(v@, p) == v@.subrange(i as int, n as int),
            skip_trailing(v@.subrange(i as int, n as int), p) == skip_trailing(v@.subrange(i as int, j as int), p),
        decreases j - i,
    {
        proof {
            lemma_skip_trailing_step(v@, p, i as int, j as int);
        }
        j = j - 1;
    }
    sub_chars(v, i, j)
}

/// `v` without its leading run of `c`.
pub fn strip_leading_char(v: &Vec<char>, c: char) -> (r: Vec<char>)
    ensures
        r@ == skip_leading(v@, equals(c)),
{
    let ghost p = equals(c);
    let n = v.len();
    let mut i: usize = 0;
    assert(v@.subrange(0, n as int) =~= v@);
    while i < n && v[i] == c
        invariant
            p == equals(c),
            i <= n == v@.len(),
            skip_leading(v@, p) == skip_leading(v@.subrange(i as int, n as int), p),
        decreases n - i,
    {
        proof {
            lemma_skip_leading_step(v@, p, i as int);
        }
        i = i + 1;
    }
    proof {
        if i == n {
            assert(v@.subrange(i as int, n as int) =~= Seq::<char>::empty());
        }
    }
    sub_chars(v, i, n)
}

/// `v` without its trailing run of `c`.
pub fn strip_trailing_char(v: &Vec<char>, c: char) -> (r: Vec<char>)
    ensures
        r@ == skip_trailing(v@, equals(c)),
{
    let ghost p = equals(c);
    let n = v.len();
    let mut j: usize = n;
    assert(v@.subrange(0, n as int) =~= v@);
    while j > 0 && v[j - 1] == c
        invariant
            p == equals(c),
            j <= n == v@.len(),
            skip_trailing(v@, p) == skip_trailing(v@.subrange(0, j as int), p),
        decreases j,
    {
        proof {
            lemma_skip_trailing_step(v@, p, 0, j as int);
        }
        j = j - 1;
    }
    proof {
        if j == 0 {
            assert(v@.subrange(0, 0) =~= Seq::<char>::empty());
        }
    }
    sub_chars(v, 0, j)
}

/// `v` with every occurrence of `c` removed.
pub fn remove_char(v: &Vec<char>, c: char) -> (r: Vec<char>)
    ensures
        r@ == v@.filter(differs(c)),
{
    let ghost p = differs(c);
    let mut r: Vec<char> = Vec::new();
    let mut i: usize = 0;
    assert(v@.take(0) =~= Seq::<char>::empty());
    while i < v.len()
        invariant
            p == differs(c),
            i <= v@.len(),
            r@ == v@.take(i as int).filter(p),
        decreases v@.len() - i,
    {
        let x = v[i];
        proof {
            assert(v@.take(i + 1) =~= v@.take(i as int).push(x));
            v@.take(i as int).lemma_filter_push(x, p);
        }
        if x != c {
            r.push(x);
        }
        i = i + 1;
    }
    assert(v@.take(i as int) =~= v@);
    r
}

/// Whether the characters `v` spell `lit`.
pub fn text_eq_chars(v: &Vec<char>, lit: &str) -> (b: bool)
    ensures
        b == (v@ == lit@),
{
    let w = chars_of(lit);
    if v.len() != w.len() {
        return false;
    }
    let mut i: usize = 0;
    while i < v.len()
        invariant
            i <= v@.len() == w@.len(),
            w@ == lit@,
            forall|k: int| 0 <= k < i ==> v@[k] == w@[k],
        decreases v@.len() - i,
    {
        if v[i] != w[i] {
            return false;
        }
        i = i + 1;
    }
    assert(v@ =~= w@);
    true
}

/// Whether two texts are equal.
pub fn text_eq(a: &str, b: &str) -> (r: bool)
    ensures
        r == (a@ == b@),
{
    text_eq_chars(&chars_of(a), b)
}

/// `prefix` followed by `rest`.
pub fn prefixed(prefix: &str, rest: &str) -> (r: String)
    ensures
        r@ == prefix@ + rest@,
{
    let mut s = String::from_str(prefix);
    s.append(rest);
    s
}

} // verus!
