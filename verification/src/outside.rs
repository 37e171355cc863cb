//! The calls into `proc_macro2` and `syn` that writing code needs.

use vstd::prelude::*;

verus! {

/// Whether `s` is plain text: every character printable ASCII, and none a
/// double quote or a backslash. A Rust string literal holds such text as
/// it is.
pub open spec fn plain_text(s: Seq<char>) -> bool {
    forall|k: int|
        0 <= k < s.len() ==> {
            let n = #[trigger] s[k] as u32;
            0x20 <= n && n <= 0x7e && s[k] != '"' && s[k] != '\\'
        }
}

/// The value of hexadecimal digit `c`, if it is one.
pub open spec fn hex_digit(c: char) -> Option<nat> {
    let n = c as u32;
    if 0x30 <= n && n <= 0x39 {
        Some((n - 0x30) as nat)
    } else if 0x61 <= n && n <= 0x66 {
        Some((n - 0x61 + 10) as nat)
    } else if 0x41 <= n && n <= 0x46 {
        Some((n - 0x41 + 10) as nat)
    } else {
        None
    }
}

/// The number that the hexadecimal digits `s` write (all of them digits).
pub open spec fn hex_value(s: Seq<char>) -> nat
    decreases s.len(),
{
    if s.len() == 0 {
        0
    } else {
        hex_value(s.drop_last()) * 16 + match hex_digit(s.last()) {
            Some(d) => d,
            None => 0,
        }
    }
}

/// The first position from `j` on that does not hold a hexadecimal digit.
pub open spec fn hex_end(s: Seq<char>, j: int) -> int
    decreases s.len() - j,
{
    if j < 0 || j >= s.len() || hex_digit(s[j]) is None {
        j
    } else {
        hex_end(s, j + 1)
    }
}

/// `v` is the number of a character: below the surrogates, or above them
/// up to `0x10FFFF`.
pub open spec fn is_scalar(v: nat) -> bool {
    v <= 0xD7FF || (0xE000 <= v && v <= 0x10FFFF)
}

/// `c` followed by the text of `rest`, if there is one.
pub open spec fn prepend(c: char, rest: Option<Seq<char>>) -> Option<Seq<char>> {
    match rest {
        Some(t) => Some(seq![c] + t),
        None => None,
    }
}

/// The text that the inside `s` of a Rust string literal stands for, with
/// its escapes `\n \r \t \\ \" \' \0`, `\x` and two hexadecimal digits
/// up to `7f`, and `\u{..}` with one to six hexadecimal digits of a
/// character; `None` where `s` holds a bare `"` or an escape that is none
/// of these.
pub open spec fn unescape(s: Seq<char>) -> Option<Seq<char>>
    decreases s.len(),
{
    if s.len() == 0 {
        Some(Seq::empty())
    } else if s[0] == '"' {
        None
    } else if s[0] != '\\' {
        prepend(s[0], unescape(s.subrange(1, s.len() as int)))
    } else if s.len() < 2 {
        None
    } else {
        let e = s[1];
        let rest = s.subrange(2, s.len() as int);
        if e == 'n' {
            prepend('\n', unescape(rest))
        } else if e == 'r' {
            prepend('\r', unescape(rest))
        } else if e == 't' {
            prepend('\t', unescape(rest))
        } else if e == '\\' || e == '"' || e == '\'' {
            prepend(e, unescape(rest))
        } else if e == '0' {
            prepend('\0', unescape(rest))
        } else if e == 'x' {
            if s.len() >= 4 && hex_digit(s[2]) is Some && hex_digit(s[3]) is Some && hex_value(
                s.subrange(2, 4),
            ) <= 0x7f {
                prepend((hex_value(s.subrange(2, 4)) as u32) as char, unescape(s.subrange(4, s.len() as int)))
            } else {
                None
            }
        } else if e == 'u' && s.len() >= 3 && s[2] == '{' {
            let k = hex_end(s, 3);
            if 4 <= k && k <= 9 && k < s.len() && s[k] == '}' && is_scalar(hex_value(s.subrange(3, k))) {
                prepend(
                    (hex_value(s.subrange(3, k)) as u32) as char,
                    unescape(s.subrange(k + 1, s.len() as int)),
                )
            } else {
                None
            }
        } else {
            None
        }
    }
}

/// The text that the Rust string literal `lit` stands for: `lit` is
/// quoted, and its inside is unescaped.
pub open spec fn string_value(lit: Seq<char>) -> Option<Seq<char>> {
    if lit.len() >= 2 && lit[0] == '"' && lit.last() == '"' {
        unescape(lit.subrange(1, lit.len() - 1))
    } else {
        None
    }
}

/// Whether `lit` is a string literal for `s`: its value is `s`, and for
/// plain text it is the text between quotes.
pub open spec fn string_literal_for(s: Seq<char>, lit: Seq<char>) -> bool {
    &&& string_value(lit) == Some(s)
    &&& plain_text(s) ==> lit == seq!['"'] + s + seq!['"']
}

/// `proc_macro2::Literal::string(s).to_string()`: the text of a Rust string
/// literal for `s`. Inside a macro expansion proc_macro2 hands the call to
/// the compiler's `proc_macro`, elsewhere to its own writer, which puts
/// the characters between double quotes, escaping with `escape_debug`
/// (a NUL as `\0`, or `\x00` before a digit). Both write Rust escapes
/// only, so the literal's value is `s`; printable ASCII other than `"` and
/// `\` stands unescaped. Which of two spellings of one character is
/// written (say `\0` or `\x00`) is left unsaid.
#[verifier::external_body]
pub(crate) fn string_literal(s: &str) -> (r: String)
    ensures
        string_literal_for(s@, r@),
{
    proc_macro2::Literal::string(s).to_string()
}

/// An ASCII letter.
pub open spec fn is_ascii_letter(c: char) -> bool {
    ('a' <= c && c <= 'z') || ('A' <= c && c <= 'Z')
}

/// A character of a plain identifier: an ASCII letter, digit or `_`.
pub open spec fn is_plain_identifier_char(c: char) -> bool {
    is_ascii_letter(c) || ('0' <= c && c <= '9') || c == '_'
}

/// A word that syn refuses as an identifier (Rust's keywords, `_`), or that
/// some edition reserves.
pub open spec fn is_reserved_word(w: Seq<char>) -> bool {
    ||| w == "_"@ || w == "abstract"@ || w == "as"@ || w == "async"@ || w == "await"@
    ||| w == "become"@ || w == "box"@ || w == "break"@ || w == "const"@ || w == "continue"@
    ||| w == "crate"@ || w == "do"@ || w == "dyn"@ || w == "else"@ || w == "enum"@
    ||| w == "extern"@ || w == "false"@ || w == "final"@ || w == "fn"@ || w == "for"@
    ||| w == "gen"@ || w == "if"@ || w == "impl"@ || w == "in"@ || w == "let"@ || w == "loop"@
    ||| w == "macro"@ || w == "match"@ || w == "mod"@ || w == "move"@ || w == "mut"@
    ||| w == "override"@ || w == "priv"@ || w == "pub"@ || w == "ref"@ || w == "return"@
    ||| w == "Self"@ || w == "self"@ || w == "static"@ || w == "struct"@ || w == "super"@
    ||| w == "trait"@ || w == "true"@ || w == "try"@ || w == "type"@ || w == "typeof"@
    ||| w == "unsafe"@ || w == "unsized"@ || w == "use"@ || w == "virtual"@ || w == "where"@
    ||| w == "while"@ || w == "yield"@
}

/// A plain identifier: ASCII letters, digits and `_`, starting with a
/// letter or with `_` and more, and no reserved word.
pub open spec fn is_plain_identifier(w: Seq<char>) -> bool {
    &&& w.len() > 0
    &&& forall|k: int| 0 <= k < w.len() ==> is_plain_identifier_char(#[trigger] w[k])
    &&& (is_ascii_letter(w[0]) || (w[0] == '_' && w.len() >= 2))
    &&& !is_reserved_word(w)
}

/// Where the run of identifier characters that ends at `k` starts.
pub open spec fn identifier_run_start(s: Seq<char>, k: int) -> int
    decreases k,
{
    if 0 < k <= s.len() && is_plain_identifier_char(s[k - 1]) {
        identifier_run_start(s, k - 1)
    } else {
        k
    }
}

/// A path of plain identifiers: `a`, `a::b`, `a::b::c`.
pub open spec fn is_plain_path(s: Seq<char>) -> bool
    decreases s.len(),
{
    let b = identifier_run_start(s, s.len() as int);
    if !(0 <= b < s.len()) || !is_plain_identifier(s.subrange(b, s.len() as int)) {
        false
    } else if b == 0 {
        true
    } else if b >= 3 && s[b - 1] == ':' && s[b - 2] == ':' {
        is_plain_path(s.subrange(0, b - 2))
    } else {
        false
    }
}

/// A plain expression: a path of plain identifiers, followed by any
/// number of calls without arguments `()` and of fields or methods
/// `.name`: `x`, `f()`, `a::b()`, `layout.render()`, `a.b.c()()`.
pub open spec fn is_plain_expression(s: Seq<char>) -> bool
    decreases s.len(),
{
    if s.len() >= 3 && s[s.len() - 2] == '(' && s[s.len() - 1] == ')' {
        is_plain_expression(s.subrange(0, s.len() - 2))
    } else {
        let b = identifier_run_start(s, s.len() as int);
        if !(0 <= b < s.len()) || !is_plain_identifier(s.subrange(b, s.len() as int)) {
            false
        } else if b == 0 {
            true
        } else if b >= 2 && s[b - 1] == '.' {
            is_plain_expression(s.subrange(0, b - 1))
        } else if b >= 3 && s[b - 1] == ':' && s[b - 2] == ':' {
            is_plain_path(s.subrange(0, b - 2))
        } else {
            false
        }
    }
}

proof fn lemma_identifier_run_start(s: Seq<char>, b: int, k: int)
    requires
        0 <= b <= k <= s.len(),
        forall|i: int| b <= i < k ==> is_plain_identifier_char(#[trigger] s[i]),
        b == 0 || !is_plain_identifier_char(s[b - 1]),
    ensures
        identifier_run_start(s, k) == b,
    decreases k,
{
    if k > b {
        lemma_identifier_run_start(s, b, k - 1);
    }
}

/// Law: plain expressions are built from identifiers by calls and by
/// fields or methods: an identifier is one; so are `e()` and `e.w` for a
/// plain expression `e` and an identifier `w`, and hence the method call
/// `e.w()`.
pub proof fn lemma_plain_expression_forms(e: Seq<char>, w: Seq<char>)
    requires
        is_plain_identifier(w),
    ensures
        is_plain_expression(w),
        is_plain_expression(e) ==> is_plain_expression(e + "()"@),
        is_plain_expression(e) ==> is_plain_expression(e + "."@ + w),
        is_plain_expression(e) ==> is_plain_expression(e + "."@ + w + "()"@),
{
    reveal_strlit("()");
    reveal_strlit(".");
    lemma_identifier_run_start(w, 0, w.len() as int);
    assert(w.subrange(0, w.len() as int) =~= w);
    if is_plain_expression(e) {
        assert(e.len() > 0);
        let c = e + "()"@;
        assert(c.subrange(0, c.len() - 2) =~= e);
        let m = e + "."@ + w;
        let b: int = e.len() as int + 1;
        assert forall|i: int| b <= i < m.len() implies is_plain_identifier_char(#[trigger] m[i]) by {
            assert(m[i] == w[i - b]);
        }
        lemma_identifier_run_start(m, b, m.len() as int);
        assert(m.subrange(b, m.len() as int) =~= w);
        assert(m.subrange(0, b - 1) =~= e);
        assert(m[m.len() - 1] == w[w.len() - 1]);
        assert(is_plain_expression(m));
        let mc = m + "()"@;
        assert(mc.subrange(0, mc.len() - 2) =~= m);
    }
}

/// A character of integer arithmetic: an ASCII digit, a space, `+ - * %`
/// or a parenthesis.
pub open spec fn is_arithmetic_char(c: char) -> bool {
    ('0' <= c && c <= '9') || c == ' ' || c == '+' || c == '-' || c == '*' || c == '%' || c == '('
        || c == ')'
}

/// Integer arithmetic cut short: only digits, spaces, `+ - * %` and
/// parentheses, and the last character that is not a space is an
/// operator, as in `1 +`. No Rust expression ends so.
pub open spec fn is_dangling_arithmetic(s: Seq<char>) -> bool {
    &&& forall|k: int| 0 <= k < s.len() ==> is_arithmetic_char(#[trigger] s[k])
    &&& exists|k: int|
        0 <= k < s.len() && (s[k] == '+' || s[k] == '-' || s[k] == '*' || s[k] == '%') && (forall|m: int|
            k < m < s.len() ==> #[trigger] s[m] == ' ')
}

/// `syn::parse_str::<syn::Expr>(s).is_ok()`: whether `s` reads as one
/// Rust expression. syn lexes `s` with the compiler's lexer inside a macro
/// expansion and with proc_macro2's own elsewhere, and the two do not
/// always agree (on reserved prefixes, for one), so the answer is not
/// stated in general. What is stated holds under both lexers, which read
/// ASCII identifiers, digits and punctuation alike: a plain expression
/// (identifiers, `::` paths, `()` calls, `.` fields and methods) is
/// accepted, and integer arithmetic that ends in an operator is refused.
#[verifier::external_body]
pub(crate) fn is_rust_expression(s: &str) -> (r: bool)
    ensures
        is_plain_expression(s@) ==> r,
        is_dangling_arithmetic(s@) ==> !r,
{
    syn::parse_str::<syn::Expr>(s).is_ok()
}

} // verus!
