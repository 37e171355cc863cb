//! Character classes and small string operations that the lexer and the
//! code writers share, with the std calls they rest on.

use vstd::prelude::*;

verus! {

/// Unicode `White_Space`, which is what `char::is_whitespace` tests.
pub open spec fn is_white_space(c: char) -> bool {
    let n = c as u32;
    ||| n == 0x20
    ||| (0x09 <= n && n <= 0x0d)
    ||| n == 0x85
    ||| n == 0xa0
    ||| n == 0x1680
    ||| (0x2000 <= n && n <= 0x200a)
    ||| n == 0x2028
    ||| n == 0x2029
    ||| n == 0x202f
    ||| n == 0x205f
    ||| n == 0x3000
}

/// `char::is_whitespace`: true exactly for the characters with the Unicode
/// `White_Space` property, which `is_white_space` lists.
#[verifier::external_body]
pub(crate) fn char_is_whitespace(c: char) -> (r: bool)
    ensures
        r == is_white_space(c),
{
    c.is_whitespace()
}

/// `String::push`: appends one character.
#[verifier::external_body]
pub(crate) fn push_char(s: &mut String, c: char)
    ensures
        final(s)@ == old(s)@.push(c),
{
    s.push(c);
}

/// What `char::is_alphanumeric` answers: whether `c` has the Unicode
/// `Alphabetic` or `Numeric` property.
pub uninterp spec fn is_alphanumeric_char(c: char) -> bool;

/// `char::is_alphanumeric`. Its answer is named, not written out: the
/// Unicode tables it reads take pages.
#[verifier::external_body]
pub(crate) fn char_is_alphanumeric(c: char) -> (r: bool)
    ensures
        r == is_alphanumeric_char(c),
{
    c.is_alphanumeric()
}

/// What `<str as Debug>::fmt` writes for `s`: the text quoted and escaped
/// the way Rust writes a string literal.
pub uninterp spec fn debug_quoted(s: Seq<char>) -> Seq<char>;

/// `format!("{:?}", s)`, the `Debug` text of a string slice, as a `String`.
#[verifier::external_body]
pub(crate) fn debug_text(s: &str) -> (r: String)
    ensures
        r@ == debug_quoted(s@),
{
    format!("{:?}", s)
}

/// `s` without its leading whitespace.
pub open spec fn trim_start_spec(s: Seq<char>) -> Seq<char>
    decreases s.len(),
{
    if s.len() > 0 && is_white_space(s[0]) {
        trim_start_spec(s.drop_first())
    } else {
        s
    }
}

/// `s` without its trailing whitespace.
pub open spec fn trim_end_spec(s: Seq<char>) -> Seq<char>
    decreases s.len(),
{
    if s.len() > 0 && is_white_space(s.last()) {
        trim_end_spec(s.drop_last())
    } else {
        s
    }
}

/// `s` without leading and trailing whitespace.
pub open spec fn trimmed(s: Seq<char>) -> Seq<char> {
    trim_end_spec(trim_start_spec(s))
}

/// `str::trim`: the slice without leading and trailing characters that
/// have the Unicode `White_Space` property.
#[verifier::external_body]
pub(crate) fn trim_white_space(s: &str) -> (r: &str)
    ensures
        r@ == trimmed(s@),
{
    s.trim()
}

/// Whether two texts are equal, character by character.
pub fn text_equals(a: &str, b: &str) -> (r: bool)
    ensures
        r == (a@ == b@),
{
    let n = a.unicode_len();
    if n != b.unicode_len() {
        return false;
    }
    let mut i: usize = 0;
    while i < n
        invariant
            n == a@.len(),
            n == b@.len(),
            i <= n,
            forall|k: int| 0 <= k < i ==> a@[k] == b@[k],
        decreases n - i,
    {
        if a.get_char(i) != b.get_char(i) {
            return false;
        }
        i = i + 1;
    }
    assert(a@ =~= b@);
    true
}

/// Whether `s` is the one character `c`.
pub fn is_single_char(s: &str, c: char) -> (r: bool)
    ensures
        r == (s@ == seq![c]),
{
    if s.unicode_len() != 1 {
        return false;
    }
    let first = s.get_char(0);
    if first == c {
        assert(s@ =~= seq![c]);
        true
    } else {
        false
    }
}

/// Number of `'\n'` characters in `s[i..j]`.
pub open spec fn newlines_between(s: Seq<char>, i: int, j: int) -> nat
    decreases j - i,
{
    if j <= i {
        0
    } else {
        newlines_between(s, i, j - 1) + if s[j - 1] == '\n' { 1nat } else { 0nat }
    }
}

/// Number of `'\n'` characters in `s`.
pub open spec fn newlines(s: Seq<char>) -> nat {
    newlines_between(s, 0, s.len() as int)
}

/// Counting newlines is additive over adjacent ranges.
pub proof fn lemma_newlines_split(s: Seq<char>, i: int, j: int, k: int)
    requires
        i <= j <= k,
    ensures
        newlines_between(s, i, k) == newlines_between(s, i, j) + newlines_between(s, j, k),
    decreases k - j,
{
    if j < k {
        lemma_newlines_split(s, i, j, k - 1);
    }
}

/// The newlines of a range only depend on the characters in it.
pub proof fn lemma_newlines_shift(s: Seq<char>, t: Seq<char>, i: int, j: int, d: int)
    requires
        0 <= i <= j,
        j <= s.len(),
        0 <= i + d,
        j + d <= t.len(),
        forall|k: int| i <= k < j ==> s[k] == t[k + d],
    ensures
        newlines_between(s, i, j) == newlines_between(t, i + d, j + d),
    decreases j - i,
{
    if i < j {
        lemma_newlines_shift(s, t, i, j - 1, d);
    }
}

/// The newlines of a concatenation are those of its parts.
pub proof fn lemma_newlines_concat(a: Seq<char>, b: Seq<char>)
    ensures
        newlines(a + b) == newlines(a) + newlines(b),
{
    let c = a + b;
    lemma_newlines_split(c, 0, a.len() as int, c.len() as int);
    lemma_newlines_shift(a, c, 0, a.len() as int, 0);
    lemma_newlines_shift(b, c, 0, b.len() as int, a.len() as int);
}

} // verus!
