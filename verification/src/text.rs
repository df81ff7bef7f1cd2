//! Character-level helpers shared by the byte-size and duration parsers:
//! Unicode white space and trimming, ASCII case folding, decimal digits,
//! quoting for messages.

use vstd::prelude::*;

verus! {

/// The characters of `s`, in order.
pub fn chars_of(s: &str) -> (out: Vec<char>)
    ensures
        out@ == s@,
{
    broadcast use vstd::string::group_string_axioms;

    let mut out: Vec<char> = Vec::new();
    for c in it: s.chars()
        invariant
            out@ == it.seq().take(it.index() as int),
            it.seq() == s@,
    {
        out.push(c);
    }
    out
}

/// Wraps `String::from_iter` over `char`s: the string made of the given
/// characters, in the given order.
#[verifier::external_body]
pub(crate) fn string_from_chars(chars: Vec<char>) -> (s: String)
    ensures
        s@ == chars@,
{
    String::from_iter(chars)
}

/// The text of `s` as `{:?}` writes a string: between double quotes, with
/// quotes, backslashes and control characters escaped.
pub uninterp spec fn debug_quoted(s: Seq<char>) -> Seq<char>;

/// Wraps the `Debug` formatting of a `str` (`format!("{s:?}")`): its result
/// is named `debug_quoted`, a function of the characters of `s` alone.
#[verifier::external_body]
pub(crate) fn debug_quote(s: &str) -> (q: String)
    ensures
        q@ == debug_quoted(s@),
{
    format!("{s:?}")
}

/// The characters `chars[lo..hi]` as a new vector.
pub fn copy_range(chars: &[char], lo: usize, hi: usize) -> (out: Vec<char>)
    requires
        lo <= hi <= chars@.len(),
    ensures
        out@ == chars@.subrange(lo as int, hi as int),
{
    let mut out: Vec<char> = Vec::new();
    let mut i = lo;
    while i < hi
        invariant
            lo <= i <= hi <= chars@.len(),
            out@ == chars@.subrange(lo as int, i as int),
        decreases hi - i,
    {
        out.push(chars[i]);
        i = i + 1;
    }
    out
}

/// A character with the Unicode `White_Space` property (the characters that
/// `str::trim` removes).
pub open spec fn is_white_space(c: char) -> bool {
    ||| ('\u{9}' <= c && c <= '\u{d}')
    ||| c == ' '
    ||| c == '\u{85}'
    ||| c == '\u{a0}'
    ||| c == '\u{1680}'
    ||| ('\u{2000}' <= c && c <= '\u{200a}')
    ||| c == '\u{2028}'
    ||| c == '\u{2029}'
    ||| c == '\u{202f}'
    ||| c == '\u{205f}'
    ||| c == '\u{3000}'
}

pub fn white_space(c: char) -> (b: bool)
    ensures
        b == is_white_space(c),
{
    ('\u{9}' <= c && c <= '\u{d}') || c == ' ' || c == '\u{85}' || c == '\u{a0}' || c == '\u{1680}'
        || ('\u{2000}' <= c && c <= '\u{200a}') || c == '\u{2028}' || c == '\u{2029}' || c
        == '\u{202f}' || c == '\u{205f}' || c == '\u{3000}'
}

/// The first index at or after `i` that does not hold white space.
pub open spec fn skip_white_space(s: Seq<char>, i: int) -> int
    decreases s.len() - i,
{
    if 0 <= i < s.len() && is_white_space(s[i]) {
        skip_white_space(s, i + 1)
    } else {
        i
    }
}

/// The end of `s[..j]` once the white space at its end is dropped.
pub open spec fn drop_white_space_end(s: Seq<char>, j: int) -> int
    decreases j,
{
    if 0 < j <= s.len() && is_white_space(s[j - 1]) {
        drop_white_space_end(s, j - 1)
    } else {
        j
    }
}

/// `s` without its leading and trailing white space, as `str::trim` gives it.
pub open spec fn trim(s: Seq<char>) -> Seq<char> {
    let a = skip_white_space(s, 0);
    let b = drop_white_space_end(s, s.len() as int);
    if a < b {
        s.subrange(a, b)
    } else {
        Seq::empty()
    }
}

/// `chars` without its leading and trailing white space.
pub fn trimmed(chars: &[char]) -> (out: Vec<char>)
    ensures
        out@ == trim(chars@),
{
    let n = chars.len();
    let mut a: usize = 0;
    while a < n && white_space(chars[a])
        invariant
            a <= n == chars@.len(),
            skip_white_space(chars@, 0) == skip_white_space(chars@, a as int),
        decreases n - a,
    {
        a = a + 1;
    }
    let mut b: usize = n;
    while b > 0 && white_space(chars[b - 1])
        invariant
            b <= n == chars@.len(),
            drop_white_space_end(chars@, n as int) == drop_white_space_end(chars@, b as int),
        decreases b,
    {
        b = b - 1;
    }
    if a < b {
        copy_range(chars, a, b)
    } else {
        Vec::new()
    }
}

/// ASCII lower-casing of one character, as `str::to_ascii_lowercase` does it.
pub open spec fn lower(c: char) -> char {
    if 'A' <= c && c <= 'Z' {
        ((c as u32) + 32) as char
    } else {
        c
    }
}

pub fn lower_char(c: char) -> (out: char)
    ensures
        out == lower(c),
{
    if 'A' <= c && c <= 'Z' {
        ((c as u8) + 32) as char
    } else {
        c
    }
}

/// The ASCII lower-casing of every character of `s`.
pub open spec fn lower_all(s: Seq<char>) -> Seq<char> {
    s.map_values(|c: char| lower(c))
}


/// `chars` with every character ASCII-lower-cased.
pub fn lowered(chars: &[char]) -> (out: Vec<char>)
    ensures
        out@ == lower_all(chars@),
{
    let mut out: Vec<char> = Vec::new();
    let mut i: usize = 0;
    while i < chars.len()
        invariant
            i <= chars@.len(),
            out@ == lower_all(chars@.take(i as int)),
        decreases chars.len() - i,
    {
        out.push(lower_char(chars[i]));
        proof {
            assert(lower_all(chars@.take(i + 1)) =~= lower_all(chars@.take(i as int)).push(
                lower(chars@[i as int]),
            ));
        }
        i = i + 1;
    }
    assert(chars@.take(chars.len() as int) =~= chars@);
    out
}

/// A sequence that neither starts nor ends with white space is its own trim.
pub proof fn lemma_trim_unchanged(s: Seq<char>)
    requires
        s.len() > 0,
        !is_white_space(s[0]),
        !is_white_space(s.last()),
    ensures
        trim(s) == s,
{
    assert(skip_white_space(s, 0) == 0);
    assert(drop_white_space_end(s, s.len() as int) == s.len());
    assert(s.subrange(0, s.len() as int) =~= s);
}

proof fn lemma_lower_keeps_white_space(s: Seq<char>, i: int)
    requires
        0 <= i < s.len(),
    ensures
        is_white_space(lower_all(s)[i]) == is_white_space(s[i]),
{
}

proof fn lemma_skip_lowered(s: Seq<char>, i: int)
    requires
        0 <= i,
    ensures
        skip_white_space(lower_all(s), i) == skip_white_space(s, i),
    decreases s.len() - i,
{
    if i < s.len() {
        lemma_lower_keeps_white_space(s, i);
        lemma_skip_lowered(s, i + 1);
    }
}

proof fn lemma_drop_end_lowered(s: Seq<char>, j: int)
    requires
        j <= s.len(),
    ensures
        drop_white_space_end(lower_all(s), j) == drop_white_space_end(s, j),
    decreases j,
{
    if 0 < j {
        lemma_lower_keeps_white_space(s, j - 1);
        lemma_drop_end_lowered(s, j - 1);
    }
}

proof fn lemma_trim_bounds(s: Seq<char>, i: int, j: int)
    requires
        0 <= i <= s.len(),
        0 <= j <= s.len(),
    ensures
        i <= skip_white_space(s, i) <= s.len(),
        0 <= drop_white_space_end(s, j) <= j,
    decreases s.len() - i + j,
{
    if 0 <= i < s.len() && is_white_space(s[i]) {
        lemma_trim_bounds(s, i + 1, j);
    }
    if 0 < j <= s.len() && is_white_space(s[j - 1]) {
        lemma_trim_bounds(s, i, j - 1);
    }
}

/// Lower-casing and trimming can go in either order.
pub proof fn lemma_trim_lowered(s: Seq<char>)
    ensures
        trim(lower_all(s)) == lower_all(trim(s)),
{
    lemma_skip_lowered(s, 0);
    lemma_drop_end_lowered(s, s.len() as int);
    let a = skip_white_space(s, 0);
    let b = drop_white_space_end(s, s.len() as int);
    lemma_trim_bounds(s, 0, s.len() as int);
    if a < b {
        assert(lower_all(s).subrange(a, b) =~= lower_all(s.subrange(a, b)));
    } else {
        assert(lower_all(Seq::<char>::empty()) =~= Seq::<char>::empty());
    }
}

proof fn lemma_skip_run(s: Seq<char>, i: int, k: int)
    requires
        0 <= i <= k <= s.len(),
        forall|m: int| i <= m < k ==> is_white_space(#[trigger] s[m]),
        k == s.len() || !is_white_space(s[k]),
    ensures
        skip_white_space(s, i) == k,
    decreases k - i,
{
    if i < k {
        lemma_skip_run(s, i + 1, k);
    }
}

proof fn lemma_drop_run(s: Seq<char>, k: int, j: int)
    requires
        0 <= k <= j <= s.len(),
        forall|m: int| k <= m < j ==> is_white_space(#[trigger] s[m]),
        k == 0 || !is_white_space(s[k - 1]),
    ensures
        drop_white_space_end(s, j) == k,
    decreases j - k,
{
    if k < j {
        lemma_drop_run(s, k, j - 1);
    }
}

proof fn lemma_skip_props(s: Seq<char>, i: int)
    requires
        0 <= i <= s.len(),
    ensures
        i <= skip_white_space(s, i) <= s.len(),
        forall|m: int| i <= m < skip_white_space(s, i) ==> is_white_space(#[trigger] s[m]),
        skip_white_space(s, i) < s.len() ==> !is_white_space(s[skip_white_space(s, i)]),
    decreases s.len() - i,
{
    if i < s.len() && is_white_space(s[i]) {
        lemma_skip_props(s, i + 1);
    }
}

proof fn lemma_drop_props(s: Seq<char>, j: int)
    requires
        0 <= j <= s.len(),
    ensures
        0 <= drop_white_space_end(s, j) <= j,
        forall|m: int| drop_white_space_end(s, j) <= m < j ==> is_white_space(#[trigger] s[m]),
        drop_white_space_end(s, j) > 0 ==> !is_white_space(s[drop_white_space_end(s, j) - 1]),
    decreases j,
{
    if 0 < j && is_white_space(s[j - 1]) {
        lemma_drop_props(s, j - 1);
    }
}

/// White space added around a text is trimmed away with the text's own.
pub proof fn lemma_trim_padded(w1: Seq<char>, x: Seq<char>, w2: Seq<char>)
    requires
        forall|k: int| 0 <= k < w1.len() ==> is_white_space(#[trigger] w1[k]),
        forall|k: int| 0 <= k < w2.len() ==> is_white_space(#[trigger] w2[k]),
    ensures
        trim(w1 + x + w2) == trim(x),
{
    let y = w1 + x + w2;
    let n1 = w1.len() as int;
    let n = x.len() as int;
    lemma_skip_props(x, 0);
    lemma_drop_props(x, n);
    let a = skip_white_space(x, 0);
    let b = drop_white_space_end(x, n);
    assert forall|m: int| 0 <= m < n1 implies is_white_space(#[trigger] y[m]) by {
        assert(y[m] == w1[m]);
    }
    assert forall|m: int| n1 + n <= m < y.len() implies is_white_space(#[trigger] y[m]) by {
        assert(y[m] == w2[m - n1 - n]);
    }
    assert forall|m: int| 0 <= m < n implies #[trigger] y[n1 + m] == x[m] by {}
    if a < n {
        if b <= a {
            assert(is_white_space(x[a]));
        }
        assert forall|m: int| 0 <= m < n1 + a implies is_white_space(#[trigger] y[m]) by {
            if m >= n1 {
                assert(y[n1 + (m - n1)] == x[m - n1]);
            }
        }
        assert(y[n1 + a] == x[a]);
        lemma_skip_run(y, 0, n1 + a);
        assert forall|m: int| n1 + b <= m < y.len() implies is_white_space(#[trigger] y[m]) by {
            if m < n1 + n {
                assert(y[n1 + (m - n1)] == x[m - n1]);
            }
        }
        assert(y[n1 + (b - 1)] == x[b - 1]);
        lemma_drop_run(y, n1 + b, y.len() as int);
        assert(y.subrange(n1 + a, n1 + b) =~= x.subrange(a, b));
    } else {
        assert forall|m: int| 0 <= m < y.len() implies is_white_space(#[trigger] y[m]) by {
            if n1 <= m < n1 + n {
                assert(y[n1 + (m - n1)] == x[m - n1]);
            }
        }
        lemma_skip_run(y, 0, y.len() as int);
        lemma_drop_props(y, y.len() as int);
    }
}

/// Lower-casing twice is lower-casing once.
pub proof fn lemma_lower_twice(s: Seq<char>)
    ensures
        lower_all(lower_all(s)) == lower_all(s),
{
    assert(lower_all(lower_all(s)) =~= lower_all(s));
}

} // verus!
