//! Writes the Rust statements for a run of markup: the markup text is
//! pushed onto the HTML string through string literals, and `$name` and
//! `$(expression)` interpolations are formatted and escaped.

use vstd::prelude::*;
use crate::htmlcontentbuilder::{error_view, ErrType, ErrorView, HtmlError};
use crate::htmllexer::{
    first_token, joined, lemma_joined_cons, lemma_lex_covers, lemma_lex_round_trip,
    lemma_next_position, lex_at, lex_stop, lex_stops_at, next_position, white_space_end,
    HtmlDynamicLexer, HtmlToken, TokenType, TokenView,
};
use crate::markuptext::lemma_joined_peel;
use crate::outside::{string_literal, string_literal_for};
use crate::text::{
    char_is_alphanumeric, debug_quoted, debug_text, is_alphanumeric_char, is_single_char,
    is_white_space, newlines,
};

verus! {

broadcast use vstd::string::group_string_axioms;

/// The start of a statement that pushes onto the HTML string.
pub const CONTENT_PUSH_START: &'static str = "__html_macro_content.push_str(";

/// The end of a statement whose last argument was just written.
pub const STATEMENT_END: &'static str = ");\n";

/// The start of the statement that formats an interpolated value.
pub const VARIABLE_START: &'static str = "let __html_variable = format!(\"{}\", ";

/// The code that pushes the formatted value, with `< > & ' " \ =`
/// replaced by HTML entities where the value holds any of them.
pub const ESCAPE_BLOCK: &'static str = r#"
            if __html_variable.chars().any(|c| ['<', '>', '&', '\'', '"', '\\', '='].contains(&c)) {
                let mut __escaped = String::with_capacity(2 * __html_variable.len());

                for c in __html_variable.as_str().chars() {
                    match c {
                        '<' => __escaped.push_str("&lt;"),
                        '>' => __escaped.push_str("&gt;"),
                        '&' => __escaped.push_str("&amp;"),
                        '\'' => __escaped.push_str("&apos;"),
                        '"' => __escaped.push_str("&quot;"),
                        '\\' => __escaped.push_str("&#x5c;"),
                        '=' => __escaped.push_str("&equals;"),
                        _ => __escaped.push(c),
                    }
                }

                __html_macro_content.push_str(&__escaped.as_str());
            } else {
                __html_macro_content.push_str(&__html_variable.as_str());
            }
        "#;

/// The start of the statement that binds an included expression.
pub const INCLUDE_START: &'static str = "let __included_html = ";

/// The end of an include: the included `String` is pushed unescaped.
pub const INCLUDE_END: &'static str = ";\n__html_macro_content.push_str(__included_html.as_str());\n";

/// One part of the code written for a template.
pub enum CodePiece {
    /// Markup text, pushed onto the HTML string as it is, through a string
    /// literal.
    Markup(Seq<char>),
    /// A value, given by this code, that is formatted and escaped.
    Escaped(Seq<char>),
    /// An expression whose `String` is pushed unescaped.
    Include(Seq<char>),
    /// Rust code of the template, as written.
    Code(Seq<char>),
}

/// The code written for one piece; `lit` is the string literal of a markup
/// piece.
pub open spec fn piece_text(p: CodePiece, lit: Seq<char>) -> Seq<char> {
    match p {
        CodePiece::Markup(_) => CONTENT_PUSH_START@ + lit + STATEMENT_END@,
        CodePiece::Escaped(c) => VARIABLE_START@ + c + STATEMENT_END@ + ESCAPE_BLOCK@,
        CodePiece::Include(e) => INCLUDE_START@ + e + INCLUDE_END@,
        CodePiece::Code(t) => t,
    }
}

/// The code of `ps`, one piece after the other, with `lits` the string
/// literals of the markup pieces in order.
pub open spec fn render(ps: Seq<CodePiece>, lits: Seq<Seq<char>>) -> Seq<char>
    decreases ps.len(),
{
    if ps.len() == 0 {
        Seq::empty()
    } else if ps.last() is Markup {
        render(ps.drop_last(), lits.drop_last()) + piece_text(ps.last(), lits.last())
    } else {
        render(ps.drop_last(), lits) + piece_text(ps.last(), Seq::empty())
    }
}

/// `lits` holds, in order, one string literal for the text of each markup
/// piece of `ps`.
pub open spec fn literals_fit(ps: Seq<CodePiece>, lits: Seq<Seq<char>>) -> bool
    decreases ps.len(),
{
    if ps.len() == 0 {
        lits.len() == 0
    } else {
        match ps.last() {
            CodePiece::Markup(t) => {
                &&& lits.len() > 0
                &&& string_literal_for(t, lits.last())
                &&& literals_fit(ps.drop_last(), lits.drop_last())
            },
            _ => literals_fit(ps.drop_last(), lits),
        }
    }
}

/// `code` is the code of the pieces `ps`, for some string literals of
/// their markup.
pub open spec fn rendered_as(ps: Seq<CodePiece>, code: Seq<char>) -> bool {
    exists|lits: Seq<Seq<char>>| literals_fit(ps, lits) && render(ps, lits) == code
}

pub proof fn lemma_render_concat(
    p1: Seq<CodePiece>,
    l1: Seq<Seq<char>>,
    p2: Seq<CodePiece>,
    l2: Seq<Seq<char>>,
)
    requires
        literals_fit(p1, l1),
        literals_fit(p2, l2),
    ensures
        literals_fit(p1 + p2, l1 + l2),
        render(p1 + p2, l1 + l2) == render(p1, l1) + render(p2, l2),
    decreases p2.len(),
{
    if p2.len() == 0 {
        assert(p1 + p2 == p1);
        assert(l2.len() == 0);
        assert(l1 + l2 == l1);
    } else {
        assert((p1 + p2).drop_last() == p1 + p2.drop_last());
        assert((p1 + p2).last() == p2.last());
        if p2.last() is Markup {
            assert((l1 + l2).drop_last() == l1 + l2.drop_last());
            assert((l1 + l2).last() == l2.last());
            lemma_render_concat(p1, l1, p2.drop_last(), l2.drop_last());
        } else {
            lemma_render_concat(p1, l1, p2.drop_last(), l2);
        }
    }
}

/// Code written for two runs of pieces, one after the other, is code for
/// the pieces one after the other.
pub proof fn lemma_rendered_concat(
    p1: Seq<CodePiece>,
    c1: Seq<char>,
    p2: Seq<CodePiece>,
    c2: Seq<char>,
)
    requires
        rendered_as(p1, c1),
        rendered_as(p2, c2),
    ensures
        rendered_as(p1 + p2, c1 + c2),
{
    let l1 = choose|l: Seq<Seq<char>>| literals_fit(p1, l) && render(p1, l) == c1;
    let l2 = choose|l: Seq<Seq<char>>| literals_fit(p2, l) && render(p2, l) == c2;
    lemma_render_concat(p1, l1, p2, l2);
}

/// No pieces, no code.
pub proof fn lemma_rendered_empty()
    ensures
        rendered_as(Seq::<CodePiece>::empty(), Seq::<char>::empty()),
{
    assert(literals_fit(Seq::<CodePiece>::empty(), Seq::<Seq<char>>::empty()));
    assert(render(Seq::<CodePiece>::empty(), Seq::<Seq<char>>::empty()) == Seq::<char>::empty());
}

/// The code of one piece that is not markup.
pub proof fn lemma_rendered_single(p: CodePiece)
    requires
        !(p is Markup),
    ensures
        rendered_as(seq![p], piece_text(p, Seq::empty())),
{
    let ps = seq![p];
    let l = Seq::<Seq<char>>::empty();
    assert(ps.drop_last() =~= Seq::<CodePiece>::empty());
    assert(ps.last() == p);
    assert(literals_fit(Seq::<CodePiece>::empty(), l));
    assert(render(Seq::<CodePiece>::empty(), l) == Seq::<char>::empty());
    assert(literals_fit(ps, l));
    assert(Seq::<char>::empty() + piece_text(p, Seq::empty()) == piece_text(p, Seq::empty()));
    assert(render(ps, l) == piece_text(p, Seq::empty()));
}

/// The code of one markup piece, with its literal.
pub proof fn lemma_rendered_markup(t: Seq<char>, lit: Seq<char>)
    requires
        string_literal_for(t, lit),
    ensures
        rendered_as(seq![CodePiece::Markup(t)], piece_text(CodePiece::Markup(t), lit)),
{
    let ps = seq![CodePiece::Markup(t)];
    let l = seq![lit];
    let e = Seq::<Seq<char>>::empty();
    assert(ps.drop_last() =~= Seq::<CodePiece>::empty());
    assert(l.drop_last() =~= e);
    assert(ps.last() == CodePiece::Markup(t));
    assert(literals_fit(Seq::<CodePiece>::empty(), e));
    assert(render(Seq::<CodePiece>::empty(), e) == Seq::<char>::empty());
    assert(literals_fit(ps, l));
    assert(Seq::<char>::empty() + piece_text(CodePiece::Markup(t), lit) == piece_text(CodePiece::Markup(t), lit));
    assert(render(ps, l) == piece_text(CodePiece::Markup(t), lit));
}

/// The type of the token at `i`, or `Nothing` past the ends.
pub open spec fn type_at(ts: Seq<TokenView>, i: int) -> TokenType {
    if 0 <= i < ts.len() {
        ts[i].token_type
    } else {
        TokenType::Nothing
    }
}

/// `$name` starts at `i`.
pub open spec fn variable_at(ts: Seq<TokenView>, i: int) -> bool {
    type_at(ts, i) == TokenType::Dollar && type_at(ts, i + 1) == TokenType::OtherText
}

/// `$(expression` starts at `i`: `$(` and a token that does not close
/// the parenthesis at once (an expression may start with any token, `(`
/// or `"` among them; `$()` holds none).
pub open spec fn expression_at(ts: Seq<TokenView>, i: int) -> bool {
    &&& type_at(ts, i) == TokenType::Dollar
    &&& type_at(ts, i + 1) == TokenType::StartParen
    &&& type_at(ts, i + 2) != TokenType::Nothing
    &&& type_at(ts, i + 2) != TokenType::EndParen
}

/// Looks from `j` for the `)` that closes an expression, with `depth`
/// parentheses open and `acc` the text read so far: the position of the
/// `)` and the expression's text, or `None` when the tokens run out.
pub open spec fn expression_scan(ts: Seq<TokenView>, j: int, depth: nat, acc: Seq<char>) -> Option<(int, Seq<char>)>
    decreases ts.len() - j,
{
    if j < 0 || j >= ts.len() {
        None
    } else if ts[j].value == seq![')'] {
        if depth == 0 {
            Some((j, acc))
        } else {
            expression_scan(ts, j + 1, (depth - 1) as nat, acc + ts[j].text())
        }
    } else if ts[j].value == seq!['('] {
        expression_scan(ts, j + 1, depth + 1, acc + ts[j].text())
    } else {
        expression_scan(ts, j + 1, depth, acc + ts[j].text())
    }
}

pub proof fn lemma_expression_scan(ts: Seq<TokenView>, j: int, depth: nat, acc: Seq<char>)
    ensures
        expression_scan(ts, j, depth, acc) matches Some((k, _)) ==> j <= k < ts.len(),
    decreases ts.len() - j,
{
    if 0 <= j < ts.len() {
        if ts[j].value == seq![')'] {
            if depth > 0 {
                lemma_expression_scan(ts, j + 1, (depth - 1) as nat, acc + ts[j].text());
            }
        } else if ts[j].value == seq!['('] {
            lemma_expression_scan(ts, j + 1, depth + 1, acc + ts[j].text());
        } else {
            lemma_expression_scan(ts, j + 1, depth, acc + ts[j].text());
        }
    }
}

/// Law: the expression read for `$(...)` is the source text as written,
/// whitespace included: from `j` to the `)` that closes it, every token's
/// text with the whitespace around it, after the text `acc` read before;
/// and the scan stops at a `)` token.
pub proof fn lemma_expression_is_source_text(ts: Seq<TokenView>, j: int, depth: nat, acc: Seq<char>)
    requires
        0 <= j,
    ensures
        expression_scan(ts, j, depth, acc) is Some ==> {
            let (k, e) = expression_scan(ts, j, depth, acc)->Some_0;
            &&& j <= k < ts.len()
            &&& ts[k].value == seq![')']
            &&& e == acc + joined(ts.subrange(j, k))
        },
    decreases ts.len() - j,
{
    if j < ts.len() {
        let rest_acc = acc + ts[j].text();
        if ts[j].value == seq![')'] {
            if depth == 0 {
                assert(ts.subrange(j, j).len() == 0);
                assert(joined(ts.subrange(j, j)) == Seq::<char>::empty());
                assert(acc + Seq::<char>::empty() == acc);
            } else {
                lemma_expression_is_source_text(ts, j + 1, (depth - 1) as nat, rest_acc);
            }
        } else if ts[j].value == seq!['('] {
            lemma_expression_is_source_text(ts, j + 1, depth + 1, rest_acc);
        } else {
            lemma_expression_is_source_text(ts, j + 1, depth, rest_acc);
        }
        if expression_scan(ts, j, depth, acc) is Some {
            let k = expression_scan(ts, j, depth, acc)->Some_0.0;
            if k > j {
                let tail = ts.subrange(j + 1, k);
                assert(ts.subrange(j, k) == seq![ts[j]] + tail);
                lemma_joined_cons(ts[j], tail);
                assert(rest_acc + joined(tail) == acc + joined(ts.subrange(j, k)));
            }
        }
    }
}

/// A character that can end a variable name.
pub open spec fn is_identifier_char(c: char) -> bool {
    is_alphanumeric_char(c) || c == '_'
}

/// The variable name in the text after `$`: the text without the trailing
/// characters that cannot end a name.
pub open spec fn variable_name(v: Seq<char>) -> Seq<char>
    decreases v.len(),
{
    if v.len() > 0 && !is_identifier_char(v.last()) {
        variable_name(v.drop_last())
    } else {
        v
    }
}

/// The variable name in the text `v` after `$`: `v` without its trailing
/// characters that are neither alphanumeric nor `_`.
pub fn variable_name_of(v: &str) -> (r: String)
    ensures
        r@ == variable_name(v@),
{
    let ghost w = v@;
    let mut n = v.unicode_len();
    assert(w.take(n as int) =~= w);
    while n > 0
        invariant_except_break
            v@ == w,
            n <= w.len(),
            variable_name(w.take(n as int)) == variable_name(w),
        ensures
            v@ == w,
            n <= w.len(),
            variable_name(w) == w.take(n as int),
        decreases n,
    {
        let c = v.get_char(n - 1);
        if char_is_alphanumeric(c) || c == '_' {
            break;
        }
        assert(w.take(n as int).drop_last() =~= w.take(n - 1));
        assert(w.take(n as int).last() == c);
        n = n - 1;
    }
    v.substring_char(0, n).to_owned()
}

/// Law: the variable name in `v` is `v` less exactly its longest trailing
/// run of characters that are neither alphanumeric nor `_`: it is a
/// prefix of `v`, everything after it is such a character, and it is
/// empty or ends in an alphanumeric character or `_`. So a text that ends
/// in one of these is a name as it stands.
pub proof fn lemma_variable_name_strips_trailing_run(v: Seq<char>)
    ensures
        variable_name(v).len() <= v.len(),
        v.subrange(0, variable_name(v).len() as int) == variable_name(v),
        forall|k: int|
            variable_name(v).len() <= k < v.len() ==> !(is_alphanumeric_char(#[trigger] v[k]) || v[k] == '_'),
        variable_name(v).len() > 0 ==> (is_alphanumeric_char(variable_name(v).last()) || variable_name(v).last()
            == '_'),
        v.len() > 0 && (is_alphanumeric_char(v.last()) || v.last() == '_') ==> variable_name(v) == v,
    decreases v.len(),
{
    if v.len() > 0 && !is_identifier_char(v.last()) {
        let w = v.drop_last();
        lemma_variable_name_strips_trailing_run(w);
        assert forall|k: int|
            variable_name(v).len() <= k < v.len() implies !(is_alphanumeric_char(#[trigger] v[k]) || v[k] == '_') by {
            if k < w.len() {
                assert(v[k] == w[k]);
            }
        }
        assert(v.subrange(0, variable_name(v).len() as int) =~= w.subrange(0, variable_name(w).len() as int));
    } else {
        assert(v.subrange(0, v.len() as int) =~= v);
    }
}

/// The pieces for pending markup text: none for empty text.
pub open spec fn flush(pass: Seq<char>) -> Seq<CodePiece> {
    if pass.len() == 0 {
        Seq::empty()
    } else {
        seq![CodePiece::Markup(pass)]
    }
}

/// The error for `$(` without its `)`.
pub open spec fn unclosed_expression_error() -> ErrorView {
    error_view("Expecting full $()"@, Seq::empty(), -1, ErrType::VarExpr)
}

/// The error for `$` with no token after it.
pub open spec fn missing_variable_error() -> ErrorView {
    error_view("Expecting a variable after $ in html macro."@, Seq::empty(), -1, ErrType::VarSingleExpr)
}

/// The error for `$` before text that holds no variable name.
pub open spec fn variable_name_error(v: Seq<char>) -> ErrorView {
    error_view(
        "Not a valid variable name: "@ + debug_quoted(v) + "."@,
        Seq::empty(),
        -1,
        ErrType::VarSingleExpr,
    )
}

/// The pieces for the tokens from `i` on, with `pass` the markup text not
/// yet written and `ps` the pieces so far. The whitespace after `$name`,
/// or after the `)` of `$(expression)`, stays in the markup.
pub open spec fn quotes_from(ts: Seq<TokenView>, i: int, pass: Seq<char>, ps: Seq<CodePiece>) -> Result<Seq<CodePiece>, ErrorView>
    decreases ts.len() - i,
{
    if i < 0 || i >= ts.len() {
        Ok(ps + flush(pass))
    } else if expression_at(ts, i) {
        match expression_scan(ts, i + 2, 0, Seq::empty()) {
            None => Err(unclosed_expression_error()),
            Some((k, e)) => {
                proof {
                    lemma_expression_scan(ts, i + 2, 0, Seq::empty());
                }
                quotes_from(
                    ts,
                    k + 1,
                    ts[k].white_space_after,
                    ps + flush(pass) + seq![CodePiece::Escaped(e)],
                )
            },
        }
    } else if variable_at(ts, i) {
        let name = variable_name(ts[i + 1].value);
        if name.len() == 0 {
            Err(variable_name_error(ts[i + 1].value))
        } else {
            quotes_from(
                ts,
                i + 2,
                ts[i + 1].white_space_after,
                ps + flush(pass) + seq![CodePiece::Escaped(name)],
            )
        }
    } else {
        quotes_from(ts, i + 1, pass + ts[i].text(), ps)
    }
}

/// The pieces for a run of markup tokens.
pub open spec fn quote_pieces(ts: Seq<TokenView>) -> Result<Seq<CodePiece>, ErrorView> {
    quotes_from(ts, 0, Seq::empty(), Seq::empty())
}

/// The pieces for a run of markup text, lexed with its line count starting
/// at `line`.
pub open spec fn markup_pieces(text: Seq<char>, line: int) -> Result<Seq<CodePiece>, ErrorView> {
    quote_pieces(lex_at(text, 0, line))
}


/// Tokens without `$`.
pub open spec fn no_dollar(ts: Seq<TokenView>) -> bool {
    forall|k: int| 0 <= k < ts.len() ==> (#[trigger] ts[k]).token_type != TokenType::Dollar
}

proof fn lemma_quotes_without_dollar(ts: Seq<TokenView>, i: int, pass: Seq<char>, ps: Seq<CodePiece>)
    requires
        no_dollar(ts),
        0 <= i <= ts.len(),
    ensures
        quotes_from(ts, i, pass, ps) == Ok::<Seq<CodePiece>, ErrorView>(
            ps + flush(pass + joined(ts.subrange(i, ts.len() as int))),
        ),
    decreases ts.len() - i,
{
    if i == ts.len() {
        assert(ts.subrange(i, ts.len() as int).len() == 0);
        assert(joined(ts.subrange(i, ts.len() as int)) == Seq::<char>::empty());
        assert(pass + Seq::<char>::empty() == pass);
    } else {
        assert(ts[i].token_type != TokenType::Dollar);
        lemma_quotes_without_dollar(ts, i + 1, pass + ts[i].text(), ps);
        let rest = ts.subrange(i + 1, ts.len() as int);
        assert(ts.subrange(i, ts.len() as int) == seq![ts[i]] + rest);
        lemma_joined_cons(ts[i], rest);
        assert(pass + ts[i].text() + joined(rest) == pass + (ts[i].text() + joined(rest)));
    }
}

proof fn lemma_lex_without_dollar(s: Seq<char>, pos: int, line: int)
    requires
        0 <= pos <= s.len(),
        !s.contains('$'),
    ensures
        no_dollar(lex_at(s, pos, line)),
    decreases s.len() - pos,
{
    if !lex_stops_at(s, pos) {
        let t = first_token(s, pos, line);
        lemma_next_position(s, pos);
        lemma_lex_without_dollar(s, next_position(s, pos), t.line_number);
        let b = white_space_end(s, pos);
        if s[b] == '$' {
            assert(s.contains(s[b]));
        }
        let ts = lex_at(s, pos, line);
        let rest = lex_at(s, next_position(s, pos), t.line_number);
        assert(ts == seq![t] + rest);
        assert forall|k: int| 0 <= k < ts.len() implies (#[trigger] ts[k]).token_type
            != TokenType::Dollar by {
            if k > 0 {
                assert(ts[k] == rest[k - 1]);
            }
        }
    }
}

/// Law: markup text without `$` and without NUL, that is not all
/// whitespace, is written as one push of the text as it stands, its
/// whitespace included.
pub proof fn lemma_plain_markup_passes_through(text: Seq<char>, line: int)
    requires
        !text.contains('$'),
        !text.contains('\0'),
        exists|k: int| 0 <= k < text.len() && !is_white_space(#[trigger] text[k]),
    ensures
        markup_pieces(text, line) == Ok::<Seq<CodePiece>, ErrorView>(seq![CodePiece::Markup(text)]),
{
    let ts = lex_at(text, 0, line);
    lemma_lex_without_dollar(text, 0, line);
    lemma_quotes_without_dollar(ts, 0, Seq::empty(), Seq::empty());
    lemma_lex_round_trip(text, line);
    assert(ts.subrange(0, ts.len() as int) == ts);
    assert(Seq::<char>::empty() + text == text);
    let k = choose|k: int| 0 <= k < text.len() && !is_white_space(#[trigger] text[k]);
    assert(text.len() > 0);
    assert(Seq::<CodePiece>::empty() + seq![CodePiece::Markup(text)] == seq![CodePiece::Markup(text)]);
}


/// `a` stands somewhere in `s`.
pub open spec fn substring_of(a: Seq<char>, s: Seq<char>) -> bool {
    exists|x: int| 0 <= x && x + a.len() <= s.len() && #[trigger] s.subrange(x, x + a.len()) == a
}

/// Every markup piece of `ps` stands somewhere in `s`.
pub open spec fn markup_within(ps: Seq<CodePiece>, s: Seq<char>) -> bool {
    forall|k: int|
        0 <= k < ps.len() ==> ((#[trigger] ps[k]) is Markup ==> substring_of(ps[k]->Markup_0, s))
}

/// The length of the text of the first `i` tokens.
spec fn text_end(ts: Seq<TokenView>, i: int) -> int {
    joined(ts.subrange(0, i)).len() as int
}

proof fn lemma_joined_prefix(ts: Seq<TokenView>, i: int, j: int)
    requires
        0 <= i <= j <= ts.len(),
    ensures
        text_end(ts, i) <= text_end(ts, j),
        joined(ts.subrange(0, j)).subrange(0, text_end(ts, i)) == joined(ts.subrange(0, i)),
    decreases j - i,
{
    if i == j {
        assert(joined(ts.subrange(0, j)).subrange(0, text_end(ts, i)) =~= joined(ts.subrange(0, i)));
    } else {
        lemma_joined_prefix(ts, i, j - 1);
        lemma_joined_peel(ts, 0, j);
        let y = joined(ts.subrange(0, j - 1));
        let x = joined(ts.subrange(0, j));
        assert(x.subrange(0, text_end(ts, i)) =~= y.subrange(0, text_end(ts, i)));
    }
}

/// The text of token `i` stands in the whole text where the first `i`
/// tokens end.
proof fn lemma_token_in_text(ts: Seq<TokenView>, i: int)
    requires
        0 <= i < ts.len(),
    ensures
        text_end(ts, i + 1) == text_end(ts, i) + ts[i].text().len(),
        text_end(ts, i + 1) <= joined(ts).len(),
        joined(ts).subrange(text_end(ts, i), text_end(ts, i + 1)) == ts[i].text(),
{
    lemma_joined_prefix(ts, i + 1, ts.len() as int);
    lemma_joined_peel(ts, 0, i + 1);
    assert(ts.subrange(0, ts.len() as int) == ts);
    let j = joined(ts);
    let p = joined(ts.subrange(0, i + 1));
    assert(j.subrange(text_end(ts, i), text_end(ts, i + 1)) =~= p.subrange(
        text_end(ts, i),
        text_end(ts, i + 1),
    ));
    assert(p.subrange(text_end(ts, i), text_end(ts, i + 1)) =~= ts[i].text());
}

proof fn lemma_markup_within_push(ps: Seq<CodePiece>, q: Seq<CodePiece>, s: Seq<char>)
    requires
        markup_within(ps, s),
        markup_within(q, s),
    ensures
        markup_within(ps + q, s),
{
    assert forall|k: int| 0 <= k < (ps + q).len() && (#[trigger] (ps + q)[k]) is Markup implies (
        substring_of((ps + q)[k]->Markup_0, s)) by {
        if k >= ps.len() {
            assert((ps + q)[k] == q[k - ps.len()]);
        } else {
            assert((ps + q)[k] == ps[k]);
        }
    }
}

proof fn lemma_flush_within(ts: Seq<TokenView>, x: int, i: int)
    requires
        0 <= i <= ts.len(),
        0 <= x <= text_end(ts, i),
        text_end(ts, i) <= joined(ts).len(),
    ensures
        markup_within(flush(joined(ts).subrange(x, text_end(ts, i))), joined(ts)),
{
    let pass = joined(ts).subrange(x, text_end(ts, i));
    if pass.len() > 0 {
        assert(joined(ts).subrange(x, x + pass.len()) == pass);
        assert(substring_of(pass, joined(ts)));
        assert(flush(pass)[0] == CodePiece::Markup(pass));
    }
}

proof fn lemma_quotes_markup_within(ts: Seq<TokenView>, i: int, pass: Seq<char>, ps: Seq<CodePiece>, x: int)
    requires
        0 <= i <= ts.len(),
        0 <= x <= text_end(ts, i),
        text_end(ts, i) <= joined(ts).len(),
        pass == joined(ts).subrange(x, text_end(ts, i)),
        markup_within(ps, joined(ts)),
    ensures
        quotes_from(ts, i, pass, ps) is Ok ==> markup_within(quotes_from(ts, i, pass, ps)->Ok_0, joined(ts)),
    decreases ts.len() - i,
{
    let j = joined(ts);
    lemma_flush_within(ts, x, i);
    lemma_markup_within_push(ps, flush(pass), j);
    if i >= ts.len() {
    } else if expression_at(ts, i) {
        if let Some((k, e)) = expression_scan(ts, i + 2, 0, Seq::empty()) {
            lemma_expression_scan(ts, i + 2, 0, Seq::empty());
            let ps2 = ps + flush(pass) + seq![CodePiece::Escaped(e)];
            lemma_markup_within_push(ps + flush(pass), seq![CodePiece::Escaped(e)], j);
            lemma_token_in_text(ts, k);
            lemma_joined_prefix(ts, i, k);
            let a = ts[k].white_space_after;
            let x2 = text_end(ts, k + 1) - a.len();
            assert(j.subrange(x2, text_end(ts, k + 1)) =~= ts[k].text().subrange(
                ts[k].text().len() - a.len(),
                ts[k].text().len() as int,
            ));
            assert(ts[k].text().subrange(ts[k].text().len() - a.len(), ts[k].text().len() as int) =~= a);
            lemma_quotes_markup_within(ts, k + 1, a, ps2, x2);
        }
    } else if variable_at(ts, i) {
        let name = variable_name(ts[i + 1].value);
        if name.len() != 0 {
            let ps2 = ps + flush(pass) + seq![CodePiece::Escaped(name)];
            lemma_markup_within_push(ps + flush(pass), seq![CodePiece::Escaped(name)], j);
            lemma_token_in_text(ts, i + 1);
            lemma_token_in_text(ts, i);
            let a = ts[i + 1].white_space_after;
            let x2 = text_end(ts, i + 2) - a.len();
            assert(j.subrange(x2, text_end(ts, i + 2)) =~= ts[i + 1].text().subrange(
                ts[i + 1].text().len() - a.len(),
                ts[i + 1].text().len() as int,
            ));
            assert(ts[i + 1].text().subrange(
                ts[i + 1].text().len() - a.len(),
                ts[i + 1].text().len() as int,
            ) =~= a);
            lemma_quotes_markup_within(ts, i + 2, a, ps2, x2);
        }
    } else {
        lemma_token_in_text(ts, i);
        assert(pass + ts[i].text() =~= j.subrange(x, text_end(ts, i + 1)));
        lemma_quotes_markup_within(ts, i + 1, pass + ts[i].text(), ps, x);
    }
}

/// Every markup piece written for a run of markup text is a part of that
/// text.
pub proof fn lemma_markup_pieces_within(text: Seq<char>, line: int)
    ensures
        markup_pieces(text, line) is Ok ==> markup_within(markup_pieces(text, line)->Ok_0, text),
{
    let ts = lex_at(text, 0, line);
    let j = joined(ts);
    assert(ts.subrange(0, 0).len() == 0);
    assert(joined(ts.subrange(0, 0)) == Seq::<char>::empty());
    assert(ts.subrange(0, ts.len() as int) == ts);
    assert(Seq::<char>::empty() == j.subrange(0, 0));
    lemma_quotes_markup_within(ts, 0, Seq::empty(), Seq::empty(), 0);
    lemma_lex_covers(text, 0, line);
    if markup_pieces(text, line) is Ok {
        let ps = markup_pieces(text, line)->Ok_0;
        assert forall|k: int| 0 <= k < ps.len() && (#[trigger] ps[k]) is Markup implies (
            substring_of(ps[k]->Markup_0, text)) by {
            if ps[k] is Markup {
                let a = ps[k]->Markup_0;
                let x = choose|x: int| 0 <= x && x + a.len() <= j.len() && #[trigger] j.subrange(x, x + a.len()) == a;
                if ts.len() == 0 {
                    assert(j.len() == 0);
                } else {
                    let stop = lex_stop(text, 0, line).0;
                    assert(j == text.subrange(0, stop));
                    assert(text.subrange(x, x + a.len()) =~= j.subrange(x, x + a.len()));
                }
            }
        }
    }
}

/// `r` is the written code for `expected` pieces, or the expected error.
pub open spec fn code_result(r: Result<String, HtmlError>, expected: Result<Seq<CodePiece>, ErrorView>) -> bool {
    match expected {
        Ok(ps) => r matches Ok(code) && rendered_as(ps, code@),
        Err(e) => r matches Err(err) && err@ == e,
    }
}

/// Writes the code for a run of markup text whose first line is
/// `line_number`: the markup is pushed through string literals, `$name`
/// and `$(expression)` are formatted and escaped.
pub fn html_quotes(html_content: &str, line_number: isize) -> (r: Result<String, HtmlError>)
    requires
        line_number + newlines(html_content@) <= isize::MAX,
    ensures
        code_result(r, markup_pieces(html_content@, line_number as int)),
{
    let mut updater = HtmlDynamicLexer::new(html_content, line_number);
    updater.lex();
    let mut code_generator = HtmlQuotes::new(&updater);
    let generated = code_generator.generate_rust_code();
    match generated {
        Ok(()) => Ok(code_generator.result),
        Err(e) => Err(e),
    }
}

struct HtmlQuotes<'a> {
    lexer: &'a HtmlDynamicLexer,
    result: String,
    current_index: usize,
}

impl<'a> HtmlQuotes<'a> {
    spec fn tokens(&self) -> Seq<TokenView> {
        self.lexer.token_list()
    }

    fn new(lexer: &'a HtmlDynamicLexer) -> (r: HtmlQuotes<'a>)
        ensures
            r.lexer == lexer,
            r.result@ == Seq::<char>::empty(),
            r.current_index == 0,
    {
        HtmlQuotes { lexer, result: String::new(), current_index: 0 }
    }

    fn get(&self, i: usize) -> (r: Option<&HtmlToken>)
        ensures
            i < self.tokens().len() ==> (r matches Some(t) && t@ == self.tokens()[i as int]),
            i >= self.tokens().len() ==> r is None,
    {
        if i >= self.lexer.token_count() {
            return None;
        }
        return Some(self.lexer.token_at(i));
    }

    fn get_type(&self, i: usize) -> (r: TokenType)
        ensures
            r == type_at(self.tokens(), i as int),
    {
        let token = self.get(i);
        match token {
            Some(t) => t.token_type,
            None => TokenType::Nothing,
        }
    }

    fn next_is_variable(&self) -> (r: bool)
        ensures
            r == variable_at(self.tokens(), self.current_index as int),
    {
        proof {
            self.lexer.lemma_token_count_bound();
        }
        let type_current = self.get_type(self.current_index);
        if self.current_index == usize::MAX {
            return false;
        }
        let type_ahead1 = self.get_type(self.current_index + 1);
        if type_current == TokenType::Dollar && type_ahead1 == TokenType::OtherText {
            return true;
        }
        false
    }

    fn next_is_variable_expression(&self) -> (r: bool)
        ensures
            r == expression_at(self.tokens(), self.current_index as int),
    {
        proof {
            self.lexer.lemma_token_count_bound();
        }
        let type_current = self.get_type(self.current_index);
        if self.current_index >= usize::MAX - 1 {
            return false;
        }
        let type_ahead1 = self.get_type(self.current_index + 1);
        let type_ahead2 = self.get_type(self.current_index + 2);
        if type_current == TokenType::Dollar && type_ahead1 == TokenType::StartParen && type_ahead2
            != TokenType::Nothing && type_ahead2 != TokenType::EndParen {
            return true;
        }
        false
    }

    /// Writes the pending markup text, if there is any, and empties it.
    fn add_pass_through(&mut self, pass_through: &mut String)
        ensures
            final(self).lexer == old(self).lexer,
            final(self).current_index == old(self).current_index,
            final(pass_through)@ == Seq::<char>::empty(),
            exists|c: Seq<char>|
                rendered_as(flush(old(pass_through)@), c) && final(self).result@ == old(self).result@ + c,
    {
        if pass_through.unicode_len() == 0 {
            proof {
                lemma_rendered_empty();
                assert(old(self).result@ + Seq::<char>::empty() == old(self).result@);
            }
            return;
        }
        let ghost old_result = self.result@;
        let ghost pass = pass_through@;
        let literal = string_literal(pass_through.as_str());
        self.result.append(CONTENT_PUSH_START);
        self.result.append(literal.as_str());
        self.result.append(STATEMENT_END);
        proof {
            lemma_rendered_markup(pass, literal@);
            assert(self.result@ == old_result + piece_text(CodePiece::Markup(pass), literal@));
        }
        *pass_through = String::new();
    }

    /// The code for a formatted and escaped value.
    fn get_escaped_code(code: String) -> (r: String)
        ensures
            r@ == piece_text(CodePiece::Escaped(code@), Seq::empty()),
    {
        let mut result = String::new();
        result.append(VARIABLE_START);
        result.append(code.as_str());
        result.append(STATEMENT_END);
        result.append(ESCAPE_BLOCK);
        result
    }

    /// Reads `$(expression)` at the current position; on success the
    /// position moves past the closing `)`.
    fn process_variables_expression(&mut self) -> (r: Result<String, HtmlError>)
        requires
            expression_at(old(self).tokens(), old(self).current_index as int),
        ensures
            final(self).lexer == old(self).lexer,
            final(self).result == old(self).result,
            r is Err ==> final(self).current_index == old(self).current_index,
            expression_scan(old(self).tokens(), old(self).current_index + 2, 0, Seq::empty()) is None
                ==> (r matches Err(e) && e@ == unclosed_expression_error()),
            expression_scan(old(self).tokens(), old(self).current_index + 2, 0, Seq::empty()) is Some
                ==> (r matches Ok(code) && code@ == piece_text(
                CodePiece::Escaped(
                    expression_scan(old(self).tokens(), old(self).current_index + 2, 0, Seq::empty())->Some_0.1,
                ),
                Seq::empty(),
            ) && final(self).current_index == expression_scan(
                old(self).tokens(),
                old(self).current_index + 2,
                0,
                Seq::empty(),
            )->Some_0.0 + 1),
    {
        let ghost ts = self.tokens();
        proof {
            self.lexer.lemma_token_count_bound();
        }
        let mut idx = self.current_index;
        let ghost start = idx + 2;
        let ahead1 = self.get(idx + 1);
        let ahead2 = self.get(idx + 2);
        if ahead1.is_none() {
            return Err(
                HtmlError {
                    message: String::from_str(
                        "Expecting a variable or expression name inside $() in html macro",
                    ),
                    hint: String::new(),
                    line: -1,
                    err_type: ErrType::VarExpr,
                },
            );
        }
        if ahead2.is_none() {
            return Err(
                HtmlError {
                    message: String::from_str("Expecting $()"),
                    hint: String::new(),
                    line: -1,
                    err_type: ErrType::VarExpr,
                },
            );
        }
        idx = idx + 2;
        let mut paren_count: usize = 0;
        let mut expr_string = String::new();
        loop
            invariant_except_break
                self.tokens() == ts,
                self.result == old(self).result,
                self.lexer == old(self).lexer,
                self.current_index == old(self).current_index,
                ts.len() <= usize::MAX,
                ts == old(self).tokens(),
                start == old(self).current_index + 2,
                start <= idx <= ts.len(),
                paren_count <= idx - start,
                expression_scan(ts, idx as int, paren_count as nat, expr_string@) == expression_scan(
                    ts,
                    start,
                    0,
                    Seq::empty(),
                ),
            ensures
                self.tokens() == ts,
                self.result == old(self).result,
                self.lexer == old(self).lexer,
                idx < ts.len(),
                expression_scan(ts, start, 0, Seq::empty()) == Some((idx as int, expr_string@)),
            decreases ts.len() - idx,
        {
            let token_opt = self.get(idx);
            if token_opt.is_none() {
                return Err(
                    HtmlError {
                        message: String::from_str("Expecting full $()"),
                        hint: String::new(),
                        line: -1,
                        err_type: ErrType::VarExpr,
                    },
                );
            }
            let token = token_opt.unwrap();
            if is_single_char(token.value.as_str(), ')') {
                if paren_count == 0 {
                    break;
                } else {
                    paren_count = paren_count - 1;
                }
            } else if is_single_char(token.value.as_str(), '(') {
                paren_count = paren_count + 1;
            }
            let text = token.to_text();
            expr_string.append(text.as_str());
            idx = idx + 1;
        }
        self.current_index = idx + 1;
        let result = Self::get_escaped_code(expr_string);
        Ok(result)
    }

    /// Reads `$name` at the current position.
    fn process_variables(&self) -> (r: Result<String, HtmlError>)
        requires
            self.current_index < usize::MAX,
        ensures
            self.current_index + 1 >= self.tokens().len() ==> (r is Err && r->Err_0@
                == missing_variable_error()),
            self.current_index + 1 < self.tokens().len() && variable_name(
                self.tokens()[self.current_index + 1].value,
            ).len() == 0 ==> (r is Err && r->Err_0@ == variable_name_error(
                self.tokens()[self.current_index + 1].value,
            )),
            self.current_index + 1 < self.tokens().len() && variable_name(
                self.tokens()[self.current_index + 1].value,
            ).len() > 0 ==> (r is Ok && r->Ok_0@ == piece_text(
                CodePiece::Escaped(variable_name(self.tokens()[self.current_index + 1].value)),
                Seq::empty(),
            )),
    {
        proof {
            self.lexer.lemma_token_count_bound();
        }
        let ahead1 = self.get(self.current_index + 1);
        if ahead1.is_none() {
            return Err(
                HtmlError {
                    message: String::from_str("Expecting a variable after $ in html macro."),
                    hint: String::new(),
                    line: -1,
                    err_type: ErrType::VarSingleExpr,
                },
            );
        }
        let symbol = ahead1.unwrap();
        let identifier = symbol.value.as_str();
        let ident = variable_name_of(identifier);
        if ident.unicode_len() == 0 {
            let mut err_mess = String::from_str("Not a valid variable name: ");
            let quoted = debug_text(identifier);
            err_mess.append(quoted.as_str());
            err_mess.append(".");
            return Err(
                HtmlError {
                    message: err_mess,
                    hint: String::new(),
                    line: -1,
                    err_type: ErrType::VarSingleExpr,
                },
            );
        }
        let result = Self::get_escaped_code(ident);
        Ok(result)
    }

    /// Writes the code for all tokens from the current position on.
    fn generate_rust_code(&mut self) -> (r: Result<(), HtmlError>)
        requires
            old(self).result@ == Seq::<char>::empty(),
            old(self).current_index <= old(self).tokens().len(),
        ensures
            quotes_from(old(self).tokens(), old(self).current_index as int, Seq::empty(), Seq::empty()) is Ok
                ==> r is Ok && rendered_as(
                quotes_from(old(self).tokens(), old(self).current_index as int, Seq::empty(), Seq::empty())->Ok_0,
                final(self).result@,
            ),
            quotes_from(old(self).tokens(), old(self).current_index as int, Seq::empty(), Seq::empty()) is Err
                ==> (r matches Err(err) && err@ == quotes_from(
                old(self).tokens(),
                old(self).current_index as int,
                Seq::empty(),
                Seq::empty(),
            )->Err_0),
    {
        let ghost ts = self.tokens();
        proof {
            self.lexer.lemma_token_count_bound();
        }
        let ghost i0 = self.current_index as int;
        let ghost mut ps: Seq<CodePiece> = Seq::empty();
        let mut pass_through = String::new();
        proof {
            lemma_rendered_empty();
        }
        loop
            invariant
                self.tokens() == ts,
                ts == old(self).tokens(),
                i0 == old(self).current_index as int,
                ts.len() <= usize::MAX,
                self.current_index <= ts.len(),
                quotes_from(ts, self.current_index as int, pass_through@, ps) == quotes_from(
                    ts,
                    i0,
                    Seq::empty(),
                    Seq::empty(),
                ),
                rendered_as(ps, self.result@),
            decreases ts.len() - self.current_index,
        {
            let ghost i = self.current_index as int;
            let current = self.get(self.current_index);
            if current.is_none() {
                let ghost before = self.result@;
                let ghost pass = pass_through@;
                self.add_pass_through(&mut pass_through);
                proof {
                    let c = choose|c: Seq<char>|
                        rendered_as(flush(pass), c) && self.result@ == before + c;
                    lemma_rendered_concat(ps, before, flush(pass), c);
                }
                return Ok(());
            }
            let current_value = current.unwrap();
            if self.next_is_variable_expression() {
                let ghost before = self.result@;
                let ghost pass = pass_through@;
                self.add_pass_through(&mut pass_through);
                proof {
                    let c = choose|c: Seq<char>|
                        rendered_as(flush(pass), c) && self.result@ == before + c;
                    lemma_rendered_concat(ps, before, flush(pass), c);
                    lemma_expression_scan(ts, i + 2, 0, Seq::empty());
                }
                let variable_expression_tokens = match self.process_variables_expression() {
                    Ok(code) => code,
                    Err(e) => {
                        return Err(e);
                    },
                };
                let ghost mid = self.result@;
                self.result.append(variable_expression_tokens.as_str());
                let closing = self.get(self.current_index - 1).unwrap();
                pass_through.append(closing.white_space_after.as_str());
                proof {
                    let e = expression_scan(ts, i + 2, 0, Seq::empty())->Some_0.1;
                    lemma_rendered_single(CodePiece::Escaped(e));
                    lemma_rendered_concat(
                        ps + flush(pass),
                        mid,
                        seq![CodePiece::Escaped(e)],
                        piece_text(CodePiece::Escaped(e), Seq::empty()),
                    );
                    ps = ps + flush(pass) + seq![CodePiece::Escaped(e)];
                }
            } else if self.next_is_variable() {
                let ghost before = self.result@;
                let ghost pass = pass_through@;
                self.add_pass_through(&mut pass_through);
                proof {
                    let c = choose|c: Seq<char>|
                        rendered_as(flush(pass), c) && self.result@ == before + c;
                    lemma_rendered_concat(ps, before, flush(pass), c);
                }
                let variable_tokens = match self.process_variables() {
                    Ok(code) => code,
                    Err(e) => {
                        return Err(e);
                    },
                };
                let ghost mid = self.result@;
                self.result.append(variable_tokens.as_str());
                let symbol = self.get(self.current_index + 1).unwrap();
                pass_through.append(symbol.white_space_after.as_str());
                proof {
                    let e = variable_name(ts[i + 1].value);
                    lemma_rendered_single(CodePiece::Escaped(e));
                    lemma_rendered_concat(
                        ps + flush(pass),
                        mid,
                        seq![CodePiece::Escaped(e)],
                        piece_text(CodePiece::Escaped(e), Seq::empty()),
                    );
                    ps = ps + flush(pass) + seq![CodePiece::Escaped(e)];
                }
                self.current_index = self.current_index + 2;
            } else {
                let text = current_value.to_text();
                pass_through.append(text.as_str());
                self.current_index = self.current_index + 1;
            }
        }
    }
}

} // verus!
