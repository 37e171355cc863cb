//! Splits template text into tokens: single delimiter characters and runs of
//! other text, each with the whitespace around it and its line number.

use vstd::prelude::*;
use crate::text::{
    char_is_whitespace, is_white_space, lemma_newlines_shift, lemma_newlines_split, newlines,
    newlines_between, push_char,
};

verus! {

broadcast use vstd::string::group_string_axioms;

/// What a token is.
#[derive(Clone, Copy, Debug, PartialEq, Eq, Structural)]
pub enum TokenType {
    StartBracket,
    EndBracket,
    StartParen,
    EndParen,
    StartTag,
    EndTag,
    OtherText,
    Dollar,
    Quote,
    Slash,
    Period,
    Nothing,
}

/// One token of template text.
#[derive(Debug, Clone)]
pub struct HtmlToken {
    pub token_type: TokenType,
    pub value: String,
    pub white_space_before: String,
    pub white_space_after: String,
    pub line_number: isize,
}

/// A token as plain values.
pub struct TokenView {
    pub token_type: TokenType,
    pub value: Seq<char>,
    pub white_space_before: Seq<char>,
    pub white_space_after: Seq<char>,
    pub line_number: int,
}

impl View for HtmlToken {
    type V = TokenView;

    open spec fn view(&self) -> TokenView {
        TokenView {
            token_type: self.token_type,
            value: self.value@,
            white_space_before: self.white_space_before@,
            white_space_after: self.white_space_after@,
            line_number: self.line_number as int,
        }
    }
}

impl TokenView {
    /// The token as it stood in the source text.
    pub open spec fn text(self) -> Seq<char> {
        self.white_space_before + self.value + self.white_space_after
    }
}

/// The views of a sequence of tokens.
pub open spec fn token_views(ts: Seq<HtmlToken>) -> Seq<TokenView> {
    ts.map_values(|t: HtmlToken| t@)
}

/// The source text of a sequence of tokens, one after the other.
pub open spec fn joined(ts: Seq<TokenView>) -> Seq<char>
    decreases ts.len(),
{
    if ts.len() == 0 {
        Seq::empty()
    } else {
        joined(ts.drop_last()) + ts.last().text()
    }
}

/// Characters that can be part of a run of other text: all but the ten
/// delimiters.
pub open spec fn is_other_char(c: char) -> bool {
    !(c == '"' || c == '{' || c == '}' || c == '<' || c == '>' || c == '$' || c == '('
        || c == ')' || c == '/' || c == '.')
}

/// The type of the token that starts with `c`.
pub open spec fn token_type_of(c: char) -> TokenType {
    if is_other_char(c) {
        TokenType::OtherText
    } else if c == '$' {
        TokenType::Dollar
    } else if c == '"' {
        TokenType::Quote
    } else if c == '{' {
        TokenType::StartBracket
    } else if c == '}' {
        TokenType::EndBracket
    } else if c == '<' {
        TokenType::StartTag
    } else if c == '>' {
        TokenType::EndTag
    } else if c == '(' {
        TokenType::StartParen
    } else if c == ')' {
        TokenType::EndParen
    } else if c == '/' {
        TokenType::Slash
    } else {
        TokenType::Period
    }
}

/// The end of the run of whitespace that starts at `i`.
pub open spec fn white_space_end(s: Seq<char>, i: int) -> int
    decreases s.len() - i,
{
    if 0 <= i < s.len() && is_white_space(s[i]) {
        white_space_end(s, i + 1)
    } else {
        i
    }
}

/// The end of the run of other text (without whitespace) that starts at `i`.
pub open spec fn other_text_end(s: Seq<char>, i: int) -> int
    decreases s.len() - i,
{
    if 0 <= i < s.len() && is_other_char(s[i]) && !is_white_space(s[i]) {
        other_text_end(s, i + 1)
    } else {
        i
    }
}

pub proof fn lemma_white_space_end(s: Seq<char>, i: int)
    requires
        0 <= i <= s.len(),
    ensures
        i <= white_space_end(s, i) <= s.len(),
        forall|k: int| i <= k < white_space_end(s, i) ==> is_white_space(#[trigger] s[k]),
        white_space_end(s, i) < s.len() ==> !is_white_space(s[white_space_end(s, i)]),
    decreases s.len() - i,
{
    if i < s.len() && is_white_space(s[i]) {
        lemma_white_space_end(s, i + 1);
    }
}

pub proof fn lemma_other_text_end(s: Seq<char>, i: int)
    requires
        0 <= i <= s.len(),
    ensures
        i <= other_text_end(s, i) <= s.len(),
        forall|k: int|
            i <= k < other_text_end(s, i) ==> is_other_char(#[trigger] s[k]) && !is_white_space(
                s[k],
            ),
        other_text_end(s, i) < s.len() ==> !(is_other_char(s[other_text_end(s, i)])
            && !is_white_space(s[other_text_end(s, i)])),
    decreases s.len() - i,
{
    if i < s.len() && is_other_char(s[i]) && !is_white_space(s[i]) {
        lemma_other_text_end(s, i + 1);
    }
}

/// Where the token that starts at `b` ends.
pub open spec fn token_end(s: Seq<char>, b: int) -> int {
    if is_other_char(s[b]) {
        other_text_end(s, b)
    } else {
        b + 1
    }
}

/// Whether lexing from `pos` stops before another token: after the
/// whitespace there comes the end of the text or a NUL character.
pub open spec fn lex_stops_at(s: Seq<char>, pos: int) -> bool {
    let b = white_space_end(s, pos);
    pos < 0 || b >= s.len() || s[b] == '\0'
}

/// The first token lexed from `pos`, whose line count starts at `line`.
pub open spec fn first_token(s: Seq<char>, pos: int, line: int) -> TokenView {
    let b = white_space_end(s, pos);
    let e = token_end(s, b);
    let a = white_space_end(s, e);
    TokenView {
        token_type: token_type_of(s[b]),
        value: s.subrange(b, e),
        white_space_before: s.subrange(pos, b),
        white_space_after: s.subrange(e, a),
        line_number: line + newlines_between(s, pos, b) + newlines_between(s, e, a),
    }
}

/// Where lexing goes on after the first token lexed from `pos`.
pub open spec fn next_position(s: Seq<char>, pos: int) -> int {
    white_space_end(s, token_end(s, white_space_end(s, pos)))
}

pub proof fn lemma_next_position(s: Seq<char>, pos: int)
    requires
        0 <= pos <= s.len(),
        !lex_stops_at(s, pos),
    ensures
        pos < white_space_end(s, pos) + 1 <= token_end(s, white_space_end(s, pos)) <= next_position(
            s,
            pos,
        ) <= s.len(),
{
    let b = white_space_end(s, pos);
    lemma_white_space_end(s, pos);
    lemma_other_text_end(s, b);
    let e = token_end(s, b);
    lemma_white_space_end(s, e);
}

/// The tokens that lexing `s` from position `pos` gives, when the line
/// count stands at `line` there.
pub open spec fn lex_at(s: Seq<char>, pos: int, line: int) -> Seq<TokenView>
    decreases s.len() - pos,
{
    if lex_stops_at(s, pos) || pos > s.len() {
        Seq::empty()
    } else {
        let t = first_token(s, pos, line);
        proof {
            lemma_next_position(s, pos);
        }
        seq![t] + lex_at(s, next_position(s, pos), t.line_number)
    }
}

/// Where lexing from `pos` stops, and the line count there.
pub open spec fn lex_stop(s: Seq<char>, pos: int, line: int) -> (int, int)
    decreases s.len() - pos,
{
    if lex_stops_at(s, pos) || pos > s.len() {
        (white_space_end(s, pos), line + newlines_between(s, pos, white_space_end(s, pos)))
    } else {
        let t = first_token(s, pos, line);
        proof {
            lemma_next_position(s, pos);
        }
        lex_stop(s, next_position(s, pos), t.line_number)
    }
}


/// Every character of `s` is whitespace.
pub open spec fn all_white_space(s: Seq<char>) -> bool {
    forall|k: int| 0 <= k < s.len() ==> is_white_space(#[trigger] s[k])
}

/// A token as the lexer makes it: whitespace around a value that is either
/// one delimiter character of the token's type, or a non-empty run of other
/// text without whitespace.
pub open spec fn token_well_formed(t: TokenView) -> bool {
    &&& all_white_space(t.white_space_before)
    &&& all_white_space(t.white_space_after)
    &&& if t.token_type == TokenType::OtherText {
        &&& t.value.len() > 0
        &&& forall|k: int|
            0 <= k < t.value.len() ==> is_other_char(#[trigger] t.value[k]) && !is_white_space(
                t.value[k],
            )
    } else {
        &&& t.value.len() == 1
        &&& !is_other_char(t.value[0])
        &&& token_type_of(t.value[0]) == t.token_type
    }
}

/// Two runs of other text that follow each other have whitespace between
/// them (else they would be one run).
pub open spec fn tokens_apart(t: TokenView, u: TokenView) -> bool {
    t.token_type == TokenType::OtherText && u.token_type == TokenType::OtherText ==> (
    t.white_space_after.len() > 0 || u.white_space_before.len() > 0)
}

/// A sequence of tokens as the lexer makes it.
pub open spec fn tokens_well_formed(ts: Seq<TokenView>) -> bool {
    &&& forall|i: int| 0 <= i < ts.len() ==> token_well_formed(#[trigger] ts[i])
    &&& forall|i: int| 0 <= i < ts.len() - 1 ==> tokens_apart(#[trigger] ts[i], ts[i + 1])
}

/// The text of a token followed by more tokens.
pub proof fn lemma_joined_cons(t: TokenView, rest: Seq<TokenView>)
    ensures
        joined(seq![t] + rest) == t.text() + joined(rest),
    decreases rest.len(),
{
    if rest.len() == 0 {
        assert(seq![t] + rest == seq![t]);
        assert(seq![t].drop_last() == Seq::<TokenView>::empty());
        assert(joined(seq![t]) == joined(Seq::<TokenView>::empty()) + t.text());
        assert(t.text() + joined(rest) == t.text());
    } else {
        lemma_joined_cons(t, rest.drop_last());
        assert((seq![t] + rest).drop_last() == seq![t] + rest.drop_last());
        assert((seq![t] + rest).last() == rest.last());
    }
}

proof fn lemma_white_space_end_idempotent(s: Seq<char>, i: int)
    requires
        0 <= i <= s.len(),
    ensures
        white_space_end(s, white_space_end(s, i)) == white_space_end(s, i),
{
    lemma_white_space_end(s, i);
}

/// Lexing loses nothing of the text it covers: the tokens from `pos`, one
/// after the other, are the text from `pos` to where lexing stops, and it
/// stops only at the end of the text or at a NUL character.
pub proof fn lemma_lex_covers(s: Seq<char>, pos: int, line: int)
    requires
        0 <= pos <= s.len(),
    ensures
        ({
            let stop = lex_stop(s, pos, line).0;
            &&& pos <= stop <= s.len()
            &&& (stop == s.len() || s[stop] == '\0')
            &&& lex_at(s, pos, line).len() > 0 ==> joined(lex_at(s, pos, line)) == s.subrange(
                pos,
                stop,
            )
            &&& lex_at(s, pos, line).len() == 0 ==> stop == white_space_end(s, pos)
        }),
    decreases s.len() - pos,
{
    lemma_white_space_end(s, pos);
    if !lex_stops_at(s, pos) {
        let t = first_token(s, pos, line);
        let next = next_position(s, pos);
        lemma_next_position(s, pos);
        let b = white_space_end(s, pos);
        let e = token_end(s, b);
        lemma_lex_covers(s, next, t.line_number);
        let rest = lex_at(s, next, t.line_number);
        assert(lex_at(s, pos, line) == seq![t] + rest);
        lemma_joined_cons(t, rest);
        assert(t.text() == s.subrange(pos, next));
        if rest.len() == 0 {
            lemma_white_space_end_idempotent(s, e);
            assert(joined(rest) == Seq::<char>::empty());
            assert(s.subrange(pos, next) + Seq::<char>::empty() == s.subrange(pos, next));
        } else {
            assert(s.subrange(pos, next) + s.subrange(next, lex_stop(s, pos, line).0)
                == s.subrange(pos, lex_stop(s, pos, line).0));
        }
    }
}

/// Law: lexing a text with no NUL character and at least one character
/// that is not whitespace gives tokens that, one after the other, are the
/// text again.
pub proof fn lemma_lex_round_trip(s: Seq<char>, line: int)
    requires
        !s.contains('\0'),
        exists|k: int| 0 <= k < s.len() && !is_white_space(#[trigger] s[k]),
    ensures
        joined(lex_at(s, 0, line)) == s,
{
    lemma_lex_covers(s, 0, line);
    lemma_white_space_end(s, 0);
    let stop = lex_stop(s, 0, line).0;
    if stop < s.len() {
        assert(s.contains(s[stop]));
    }
    if lex_at(s, 0, line).len() == 0 {
        let k = choose|k: int| 0 <= k < s.len() && !is_white_space(#[trigger] s[k]);
        assert(is_white_space(s[k]));
    }
    assert(s.subrange(0, s.len() as int) == s);
}

/// Law: the lexer makes well-formed tokens.
pub proof fn lemma_lex_well_formed(s: Seq<char>, pos: int, line: int)
    requires
        0 <= pos <= s.len(),
    ensures
        tokens_well_formed(lex_at(s, pos, line)),
    decreases s.len() - pos,
{
    if !lex_stops_at(s, pos) {
        let t = first_token(s, pos, line);
        let next = next_position(s, pos);
        lemma_next_position(s, pos);
        let b = white_space_end(s, pos);
        let e = token_end(s, b);
        lemma_white_space_end(s, pos);
        lemma_other_text_end(s, b);
        lemma_white_space_end(s, e);
        lemma_lex_well_formed(s, next, t.line_number);
        let rest = lex_at(s, next, t.line_number);
        let ts = lex_at(s, pos, line);
        assert(ts == seq![t] + rest);
        assert(all_white_space(t.white_space_before));
        assert(all_white_space(t.white_space_after));
        assert(token_well_formed(t));
        assert forall|i: int| 0 <= i < ts.len() implies token_well_formed(#[trigger] ts[i]) by {
            if i > 0 {
                assert(ts[i] == rest[i - 1]);
            }
        }
        assert forall|i: int| 0 <= i < ts.len() - 1 implies tokens_apart(
            #[trigger] ts[i],
            ts[i + 1],
        ) by {
            if i > 0 {
                assert(ts[i] == rest[i - 1]);
                assert(ts[i + 1] == rest[i]);
            } else {
                assert(ts[1] == rest[0]);
                lemma_white_space_end(s, next);
                if t.token_type == TokenType::OtherText && t.white_space_after.len() == 0 {
                    assert(next == e);
                    lemma_white_space_end_idempotent(s, e);
                    assert(rest[0] == first_token(s, next, t.line_number));
                }
            }
        }
    }
}


/// Law: the whitespace between two tokens goes to the earlier token's
/// whitespace after it: only the first token lexed from `pos` has
/// whitespace before it, and that is all the whitespace at `pos`.
pub proof fn lemma_lex_white_space_before(s: Seq<char>, pos: int, line: int)
    requires
        0 <= pos <= s.len(),
    ensures
        lex_at(s, pos, line).len() > 0 ==> lex_at(s, pos, line)[0].white_space_before == s.subrange(
            pos,
            white_space_end(s, pos),
        ),
        forall|k: int|
            0 < k < lex_at(s, pos, line).len() ==> (#[trigger] lex_at(s, pos, line)[k]).white_space_before
                .len() == 0,
    decreases s.len() - pos,
{
    if !lex_stops_at(s, pos) {
        let t = first_token(s, pos, line);
        let next = next_position(s, pos);
        lemma_next_position(s, pos);
        let b = white_space_end(s, pos);
        let e = token_end(s, b);
        lemma_white_space_end(s, e);
        lemma_white_space_end_idempotent(s, e);
        lemma_lex_white_space_before(s, next, t.line_number);
        let rest = lex_at(s, next, t.line_number);
        let ts = lex_at(s, pos, line);
        assert(ts == seq![t] + rest);
        assert forall|k: int| 0 < k < ts.len() implies (#[trigger] ts[k]).white_space_before.len() == 0 by {
            assert(ts[k] == rest[k - 1]);
            if k == 1 {
                assert(white_space_end(s, next) == next);
            }
        }
    }
}

/// Law: lexing stops for good: from where lexing stops, lexing again gives
/// no tokens and does not move.
pub proof fn lemma_lex_again_adds_nothing(s: Seq<char>, pos: int, line: int, again_line: int)
    requires
        0 <= pos <= s.len(),
    ensures
        lex_at(s, lex_stop(s, pos, line).0, again_line).len() == 0,
        lex_stop(s, lex_stop(s, pos, line).0, again_line) == (lex_stop(s, pos, line).0, again_line),
{
    lemma_lex_covers(s, pos, line);
    let stop = lex_stop(s, pos, line).0;
    lemma_white_space_end(s, stop);
    if stop < s.len() {
        assert(!is_white_space(s[stop]));
    }
    assert(white_space_end(s, stop) == stop);
}

/// A token's type names its value: each of the ten delimiters `$ " { } <
/// > ( ) / .` is a token of its own type, and any other token is other
/// text, non-empty and holding no delimiter.
pub open spec fn type_names_value(t: TokenView) -> bool {
    &&& (t.token_type == TokenType::Dollar <==> t.value == seq!['$'])
    &&& (t.token_type == TokenType::Quote <==> t.value == seq!['"'])
    &&& (t.token_type == TokenType::StartBracket <==> t.value == seq!['{'])
    &&& (t.token_type == TokenType::EndBracket <==> t.value == seq!['}'])
    &&& (t.token_type == TokenType::StartTag <==> t.value == seq!['<'])
    &&& (t.token_type == TokenType::EndTag <==> t.value == seq!['>'])
    &&& (t.token_type == TokenType::StartParen <==> t.value == seq!['('])
    &&& (t.token_type == TokenType::EndParen <==> t.value == seq![')'])
    &&& (t.token_type == TokenType::Slash <==> t.value == seq!['/'])
    &&& (t.token_type == TokenType::Period <==> t.value == seq!['.'])
    &&& (t.token_type == TokenType::OtherText ==> t.value.len() > 0 && forall|k: int|
        0 <= k < t.value.len() ==> {
            let c = #[trigger] t.value[k];
            c != '$' && c != '"' && c != '{' && c != '}' && c != '<' && c != '>' && c != '('
                && c != ')' && c != '/' && c != '.'
        })
    &&& t.token_type != TokenType::Nothing
}

proof fn lemma_well_formed_type_names_value(t: TokenView)
    requires
        token_well_formed(t),
    ensures
        type_names_value(t),
{
    if t.token_type == TokenType::OtherText {
        assert(is_other_char(t.value[0]));
    } else {
        assert(t.value =~= seq![t.value[0]]);
    }
}

/// Law: every token lexed is typed by its value: a delimiter's token has
/// that delimiter's own type, and other text is typed as other text.
pub proof fn lemma_lex_types_name_values(s: Seq<char>, pos: int, line: int)
    requires
        0 <= pos <= s.len(),
    ensures
        forall|k: int| 0 <= k < lex_at(s, pos, line).len() ==> type_names_value(#[trigger] lex_at(s, pos, line)[k]),
{
    lemma_lex_well_formed(s, pos, line);
    let ts = lex_at(s, pos, line);
    assert forall|k: int| 0 <= k < ts.len() implies type_names_value(#[trigger] ts[k]) by {
        lemma_well_formed_type_names_value(ts[k]);
    }
}

/// The line numbers of the tokens lie between the line count where lexing
/// starts and that count plus the newlines of the rest of the text.
pub proof fn lemma_lex_lines(s: Seq<char>, pos: int, line: int)
    requires
        0 <= pos <= s.len(),
    ensures
        forall|k: int|
            0 <= k < lex_at(s, pos, line).len() ==> line <= (#[trigger] lex_at(s, pos, line)[k]).line_number
                <= line + newlines_between(s, pos, s.len() as int),
    decreases s.len() - pos,
{
    if !lex_stops_at(s, pos) {
        let t = first_token(s, pos, line);
        let next = next_position(s, pos);
        lemma_next_position(s, pos);
        let b = white_space_end(s, pos);
        let e = token_end(s, b);
        lemma_newlines_split(s, pos, b, next);
        lemma_newlines_split(s, b, e, next);
        lemma_newlines_split(s, pos, next, s.len() as int);
        lemma_lex_lines(s, next, t.line_number);
        let rest = lex_at(s, next, t.line_number);
        assert(lex_at(s, pos, line) == seq![t] + rest);
        assert forall|k: int| 0 <= k < lex_at(s, pos, line).len() implies line <= (
        #[trigger] lex_at(s, pos, line)[k]).line_number <= line + newlines_between(
            s,
            pos,
            s.len() as int,
        ) by {
            if k > 0 {
                assert(lex_at(s, pos, line)[k] == rest[k - 1]);
            }
        }
    }
}

/// Every token takes at least one character.
pub proof fn lemma_lex_count(s: Seq<char>, pos: int, line: int)
    requires
        0 <= pos <= s.len(),
    ensures
        lex_at(s, pos, line).len() <= s.len() - pos,
    decreases s.len() - pos,
{
    if !lex_stops_at(s, pos) {
        let t = first_token(s, pos, line);
        lemma_next_position(s, pos);
        lemma_lex_count(s, next_position(s, pos), t.line_number);
    }
}

/// The tokens hold no more newlines than the text.
pub proof fn lemma_lex_newlines(s: Seq<char>, line: int)
    ensures
        newlines(joined(lex_at(s, 0, line))) <= newlines(s),
{
    lemma_lex_covers(s, 0, line);
    let ts = lex_at(s, 0, line);
    if ts.len() > 0 {
        let stop = lex_stop(s, 0, line).0;
        lemma_newlines_shift(s.subrange(0, stop), s, 0, stop, 0);
        lemma_newlines_split(s, 0, stop, s.len() as int);
    } else {
        assert(joined(ts) == Seq::<char>::empty());
    }
}

impl HtmlToken {
    /// The token as it stood in the source: the whitespace before it, its
    /// value and the whitespace after it.
    pub fn to_text(&self) -> (r: String)
        ensures
            r@ == self@.text(),
    {
        let mut r = self.white_space_before.clone();
        r.append(self.value.as_str());
        r.append(self.white_space_after.as_str());
        r
    }

    /// A token equal to this one.
    pub fn duplicate(&self) -> (r: HtmlToken)
        ensures
            r@ == self@,
    {
        HtmlToken {
            token_type: self.token_type,
            value: self.value.clone(),
            white_space_before: self.white_space_before.clone(),
            white_space_after: self.white_space_after.clone(),
            line_number: self.line_number,
        }
    }
}

/// Lexer over one template text.
pub struct HtmlDynamicLexer {
    pub tokens: Vec<HtmlToken>,
    characters: Vec<char>,
    position: usize,
    line_number: isize,
}

impl HtmlDynamicLexer {
    /// The tokens lexed so far.
    pub closed spec fn token_list(&self) -> Seq<TokenView> {
        token_views(self.tokens@)
    }

    /// The text being lexed.
    pub closed spec fn input(&self) -> Seq<char> {
        self.characters@
    }

    /// How far lexing has come.
    pub closed spec fn position(&self) -> int {
        self.position as int
    }

    /// The line count at the current position.
    pub closed spec fn line(&self) -> int {
        self.line_number as int
    }

    pub closed spec fn wf(&self) -> bool {
        self.position <= self.characters@.len()
    }

    /// The line count cannot overflow on the rest of the text.
    pub open spec fn lines_fit(&self) -> bool {
        self.line() + newlines_between(self.input(), self.position(), self.input().len() as int)
            <= isize::MAX
    }

    /// A lexer at the start of `input`, with no tokens yet, counting lines
    /// from `start_line`.
    pub fn new(input: &str, start_line: isize) -> (r: HtmlDynamicLexer)
        ensures
            r.wf(),
            r.input() == input@,
            r.position() == 0,
            r.line() == start_line,
            r.token_list().len() == 0,
    {
        let mut characters: Vec<char> = Vec::new();
        for c in it: input.chars()
            invariant
                characters@ == it.seq().take(it.index()),
        {
            characters.push(c);
        }
        assert(characters@ == input@);
        HtmlDynamicLexer { tokens: Vec::new(), characters, position: 0, line_number: start_line }
    }

    /// Reads the run of whitespace at the current position, counting the
    /// newlines in it.
    fn get_white_space(&mut self) -> (r: String)
        requires
            old(self).wf(),
            old(self).lines_fit(),
        ensures
            final(self).wf(),
            final(self).lines_fit(),
            final(self).input() == old(self).input(),
            final(self).tokens == old(self).tokens,
            final(self).position() == white_space_end(old(self).input(), old(self).position()),
            final(self).line() == old(self).line() + newlines_between(
                old(self).input(),
                old(self).position(),
                final(self).position(),
            ),
            r@ == old(self).input().subrange(old(self).position(), final(self).position()),
    {
        let ghost s = self.characters@;
        let ghost p0 = self.position as int;
        let ghost l0 = self.line_number as int;
        let mut white_space = String::new();
        while self.position < self.characters.len()
            invariant_except_break
                self.characters@ == s,
                self.tokens == old(self).tokens,
                0 <= p0 <= self.position <= s.len(),
                white_space_end(s, self.position as int) == white_space_end(s, p0),
                white_space@ == s.subrange(p0, self.position as int),
                self.line_number == l0 + newlines_between(s, p0, self.position as int),
                l0 + newlines_between(s, p0, s.len() as int) <= isize::MAX,
            ensures
                self.characters@ == s,
                self.tokens == old(self).tokens,
                p0 <= self.position <= s.len(),
                self.position == white_space_end(s, p0),
                white_space@ == s.subrange(p0, self.position as int),
                self.line_number == l0 + newlines_between(s, p0, self.position as int),
            decreases s.len() - self.position,
        {
            let next = self.characters[self.position];
            if next == '\n' {
                proof {
                    lemma_newlines_split(s, p0, self.position as int + 1, s.len() as int);
                }
                self.line_number = self.line_number + 1;
            }
            if char_is_whitespace(next) {
                push_char(&mut white_space, next);
                self.position = self.position + 1;
                assert(white_space@ =~= s.subrange(p0, self.position as int));
            } else {
                if next == '\n' {
                    assert(false);
                }
                break;
            }
        }
        proof {
            lemma_newlines_split(s, p0, self.position as int, s.len() as int);
        }
        white_space
    }

    /// The character at the current position, or NUL at the end.
    fn peek(&self) -> (c: char)
        requires
            self.wf(),
        ensures
            c == if self.position() < self.input().len() {
                self.input()[self.position()]
            } else {
                '\0'
            },
    {
        if self.position < self.characters.len() {
            self.characters[self.position]
        } else {
            '\0'
        }
    }

    /// Whether `character` can be part of a run of other text.
    pub fn is_other_text(character: char) -> (r: bool)
        ensures
            r == is_other_char(character),
    {
        match character {
            '"' => false,
            '{' => false,
            '}' => false,
            '<' => false,
            '>' => false,
            '$' => false,
            '(' => false,
            ')' => false,
            '/' => false,
            '.' => false,
            _ => true,
        }
    }

    /// Appends a token.
    fn push(
        &mut self,
        text: String,
        token_type: TokenType,
        white_space_before: String,
        white_space_after: String,
        line_number: isize,
    )
        ensures
            final(self).tokens@ == old(self).tokens@.push(
                HtmlToken {
                    token_type,
                    value: text,
                    white_space_before,
                    white_space_after,
                    line_number,
                },
            ),
            final(self).characters == old(self).characters,
            final(self).position == old(self).position,
            final(self).line_number == old(self).line_number,
    {
        self.tokens.push(
            HtmlToken { token_type, value: text, white_space_before, white_space_after, line_number },
        );
    }

    /// Reads the run of other text at the current position.
    fn process_other(&mut self) -> (r: String)
        requires
            old(self).wf(),
            old(self).position() < old(self).input().len(),
            !is_white_space(old(self).input()[old(self).position()]),
        ensures
            final(self).wf(),
            final(self).input() == old(self).input(),
            final(self).tokens == old(self).tokens,
            final(self).line() == old(self).line(),
            final(self).position() == other_text_end(old(self).input(), old(self).position()),
            r@ == old(self).input().subrange(old(self).position(), final(self).position()),
    {
        let ghost s = self.characters@;
        let ghost p0 = self.position as int;
        let mut current = String::new();
        while self.position < self.characters.len()
            invariant_except_break
                self.characters@ == s,
                self.tokens == old(self).tokens,
                self.line_number == old(self).line_number,
                0 <= p0 <= self.position <= s.len(),
                other_text_end(s, self.position as int) == other_text_end(s, p0),
                current@ == s.subrange(p0, self.position as int),
            ensures
                self.characters@ == s,
                self.tokens == old(self).tokens,
                self.line_number == old(self).line_number,
                p0 <= self.position <= s.len(),
                self.position == other_text_end(s, p0),
                current@ == s.subrange(p0, self.position as int),
            decreases s.len() - self.position,
        {
            let next = self.characters[self.position];
            if Self::is_other_text(next) && !char_is_whitespace(next) {
                push_char(&mut current, next);
                self.position = self.position + 1;
                assert(current@ =~= s.subrange(p0, self.position as int));
            } else {
                break;
            }
        }
        current
    }

    /// Lexes the rest of the text: appends its tokens, up to the end or to
    /// a NUL character that stands where a token would start.
    pub fn lex(&mut self)
        requires
            old(self).wf(),
            old(self).lines_fit(),
        ensures
            final(self).wf(),
            final(self).lines_fit(),
            final(self).input() == old(self).input(),
            final(self).token_list() == old(self).token_list() + lex_at(
                old(self).input(),
                old(self).position(),
                old(self).line(),
            ),
            (final(self).position(), final(self).line()) == lex_stop(
                old(self).input(),
                old(self).position(),
                old(self).line(),
            ),
    {
        let ghost s = self.characters@;
        let ghost p0 = self.position as int;
        let ghost l0 = self.line_number as int;
        loop
            invariant_except_break
                self.wf(),
                self.lines_fit(),
                self.characters@ == s,
                self.token_list() + lex_at(s, self.position as int, self.line_number as int)
                    == old(self).token_list() + lex_at(s, p0, l0),
                lex_stop(s, self.position as int, self.line_number as int) == lex_stop(s, p0, l0),
            ensures
                self.wf(),
                self.lines_fit(),
                self.characters@ == s,
                self.token_list() == old(self).token_list() + lex_at(s, p0, l0),
                (self.position as int, self.line_number as int) == lex_stop(s, p0, l0),
            decreases s.len() - self.position,
        {
            let ghost pos = self.position as int;
            let ghost line = self.line_number as int;
            let ghost before_tokens = self.token_list();
            proof {
                lemma_white_space_end(s, pos);
            }
            let white_space_before = self.get_white_space();
            let next = self.peek();
            if next == '\0' {
                assert(lex_stops_at(s, pos));
                assert(lex_at(s, pos, line) == Seq::<TokenView>::empty());
                assert(self.token_list() == before_tokens);
                break;
            }
            let b = self.position;
            assert(b < self.characters.len());
            proof {
                lemma_next_position(s, pos);
                lemma_other_text_end(s, b as int);
            }
            let processed_token_type = match next {
                '$' => TokenType::Dollar,
                '"' => TokenType::Quote,
                '{' => TokenType::StartBracket,
                '}' => TokenType::EndBracket,
                '<' => TokenType::StartTag,
                '>' => TokenType::EndTag,
                '(' => TokenType::StartParen,
                ')' => TokenType::EndParen,
                '/' => TokenType::Slash,
                '.' => TokenType::Period,
                _ => TokenType::OtherText,
            };
            let current_text = match processed_token_type {
                TokenType::OtherText => self.process_other(),
                _ => {
                    let mut ch = String::new();
                    push_char(&mut ch, next);
                    self.position = self.position + 1;
                    assert(ch@ == s.subrange(b as int, b + 1));
                    ch
                },
            };
            proof {
                lemma_newlines_split(s, pos, b as int, s.len() as int);
                lemma_newlines_split(s, b as int, self.position as int, s.len() as int);
            }
            let white_space_after = self.get_white_space();
            let ghost t = HtmlToken {
                token_type: processed_token_type,
                value: current_text,
                white_space_before,
                white_space_after,
                line_number: self.line_number,
            };
            assert(t@ == first_token(s, pos, line));
            self.push(
                current_text,
                processed_token_type,
                white_space_before,
                white_space_after,
                self.line_number,
            );
            assert(self.token_list() == before_tokens.push(t@));
            assert(lex_at(s, pos, line) == seq![t@] + lex_at(
                s,
                self.position as int,
                self.line_number as int,
            ));
        }
    }

    /// There are no more tokens than a `usize` counts.
    pub proof fn lemma_token_count_bound(&self)
        ensures
            self.token_list().len() <= usize::MAX,
    {
        assert(self.tokens.len() == self.tokens@.len());
    }

    /// The tokens, taking the lexer apart.
    pub fn into_tokens(self) -> (r: Vec<HtmlToken>)
        ensures
            token_views(r@) == self.token_list(),
    {
        self.tokens
    }

    /// How many tokens there are.
    pub fn token_count(&self) -> (r: usize)
        ensures
            r == self.token_list().len(),
    {
        self.tokens.len()
    }

    /// The token at `i`.
    pub fn token_at(&self, i: usize) -> (r: &HtmlToken)
        requires
            i < self.token_list().len(),
        ensures
            r@ == self.token_list()[i as int],
    {
        &self.tokens[i]
    }

    /// The source text of all tokens, one after the other.
    pub fn join(&self) -> (r: String)
        ensures
            r@ == joined(self.token_list()),
    {
        let mut result = String::new();
        let mut i: usize = 0;
        while i < self.tokens.len()
            invariant
                i <= self.tokens@.len(),
                result@ == joined(self.token_list().take(i as int)),
            decreases self.tokens@.len() - i,
        {
            let token = &self.tokens[i];
            result.append(token.white_space_before.as_str());
            result.append(token.value.as_str());
            result.append(token.white_space_after.as_str());
            assert(self.token_list().take(i + 1).drop_last() == self.token_list().take(i as int));
            i = i + 1;
        }
        assert(self.token_list().take(i as int) == self.token_list());
        result
    }
}

} // verus!
