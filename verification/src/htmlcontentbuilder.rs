//! Splits the tokens of a template into markup, Rust code and include
//! directives, and writes the Rust statements that build the HTML string.

use vstd::prelude::*;
use crate::htmllexer::{joined, lemma_joined_cons, token_views, HtmlToken, TokenView};
use crate::htmlquotes::{
    html_quotes, lemma_rendered_concat, lemma_rendered_empty, lemma_rendered_single,
    markup_pieces, piece_text, rendered_as, CodePiece, INCLUDE_END, INCLUDE_START,
};
use crate::outside::{is_dangling_arithmetic, is_plain_expression, is_rust_expression};
use crate::text::{
    is_single_char, lemma_newlines_concat, newlines, push_char, text_equals, trim_white_space,
    trimmed,
};

verus! {

/// The kind of a template error.
#[derive(Clone, Copy, Debug, PartialEq, Eq, Structural)]
pub enum ErrType {
    NoIncludeEndSlash,
    IncludeOutsideOfMarkup,
    BadTag,
    VarExpr,
    VarSingleExpr,
    Other,
}

/// An error in a template, with the line it was found on (`-1` where no
/// line is known).
#[derive(Debug, Clone)]
pub struct HtmlError {
    pub message: String,
    pub hint: String,
    pub line: isize,
    pub err_type: ErrType,
}

/// An error as plain values.
pub struct ErrorView {
    pub message: Seq<char>,
    pub hint: Seq<char>,
    pub line: int,
    pub err_type: ErrType,
}

impl View for HtmlError {
    type V = ErrorView;

    open spec fn view(&self) -> ErrorView {
        ErrorView {
            message: self.message@,
            hint: self.hint@,
            line: self.line as int,
            err_type: self.err_type,
        }
    }
}

/// The error with these parts.
pub open spec fn error_view(message: Seq<char>, hint: Seq<char>, line: int, err_type: ErrType) -> ErrorView {
    ErrorView { message, hint, line, err_type }
}


/// The name of an error kind, as `Debug` writes it.
pub open spec fn err_type_name(t: ErrType) -> Seq<char> {
    match t {
        ErrType::NoIncludeEndSlash => "NoIncludeEndSlash"@,
        ErrType::IncludeOutsideOfMarkup => "IncludeOutsideOfMarkup"@,
        ErrType::BadTag => "BadTag"@,
        ErrType::VarExpr => "VarExpr"@,
        ErrType::VarSingleExpr => "VarSingleExpr"@,
        ErrType::Other => "Other"@,
    }
}

impl ErrType {
    /// The kind's name.
    pub fn name(&self) -> (r: &'static str)
        ensures
            r@ == err_type_name(*self),
    {
        match self {
            ErrType::NoIncludeEndSlash => "NoIncludeEndSlash",
            ErrType::IncludeOutsideOfMarkup => "IncludeOutsideOfMarkup",
            ErrType::BadTag => "BadTag",
            ErrType::VarExpr => "VarExpr",
            ErrType::VarSingleExpr => "VarSingleExpr",
            ErrType::Other => "Other",
        }
    }
}

/// The decimal digit `d`.
pub open spec fn digit_char(d: nat) -> char {
    if d == 0 {
        '0'
    } else if d == 1 {
        '1'
    } else if d == 2 {
        '2'
    } else if d == 3 {
        '3'
    } else if d == 4 {
        '4'
    } else if d == 5 {
        '5'
    } else if d == 6 {
        '6'
    } else if d == 7 {
        '7'
    } else if d == 8 {
        '8'
    } else {
        '9'
    }
}

/// `n` written in decimal.
pub open spec fn decimal(n: nat) -> Seq<char>
    decreases n,
{
    if n < 10 {
        seq![digit_char(n)]
    } else {
        decimal(n / 10).push(digit_char(n % 10))
    }
}

fn digit(d: u64) -> (c: char)
    requires
        d < 10,
    ensures
        c == digit_char(d as nat),
{
    if d == 0 {
        '0'
    } else if d == 1 {
        '1'
    } else if d == 2 {
        '2'
    } else if d == 3 {
        '3'
    } else if d == 4 {
        '4'
    } else if d == 5 {
        '5'
    } else if d == 6 {
        '6'
    } else if d == 7 {
        '7'
    } else if d == 8 {
        '8'
    } else {
        '9'
    }
}

/// `n` written in decimal, as `format!("{}", n)` writes it.
pub fn decimal_string(n: u64) -> (r: String)
    ensures
        r@ == decimal(n as nat),
    decreases n,
{
    if n < 10 {
        let mut s = String::new();
        push_char(&mut s, digit(n));
        s
    } else {
        let mut s = decimal_string(n / 10);
        push_char(&mut s, digit(n % 10));
        s
    }
}

/// The compiler message for an error: where the line is known, it is
/// given; then the message, the hint and the error's kind.
pub open spec fn compile_message_text(e: ErrorView) -> Seq<char> {
    "HTML macro error. "@ + (if e.line >= 0 {
        "Line: "@ + decimal(e.line as nat) + ". "@
    } else {
        Seq::empty()
    }) + (if e.message.len() > 0 {
        e.message + seq!['\n']
    } else {
        Seq::empty()
    }) + (if e.hint.len() > 0 {
        "Hint: "@ + e.hint + seq!['\n']
    } else {
        Seq::empty()
    }) + "Type: "@ + err_type_name(e.err_type)
}

impl HtmlError {
    /// The message the compiler reports for this error.
    pub fn compile_message(&self) -> (r: String)
        ensures
            r@ == compile_message_text(self@),
    {
        let mut compile_message = String::from_str("HTML macro error. ");
        let ghost m0 = compile_message@;
        if self.line >= 0 {
            compile_message.append("Line: ");
            let line = decimal_string(self.line as u64);
            compile_message.append(line.as_str());
            compile_message.append(". ");
        }
        let ghost m1 = compile_message@;
        if self.message.unicode_len() != 0 {
            compile_message.append(self.message.as_str());
            push_char(&mut compile_message, '\n');
        }
        let ghost m2 = compile_message@;
        if self.hint.unicode_len() != 0 {
            compile_message.append("Hint: ");
            compile_message.append(self.hint.as_str());
            push_char(&mut compile_message, '\n');
        }
        compile_message.append("Type: ");
        compile_message.append(self.err_type.name());
        compile_message
    }
}

/// The state of a content builder, as plain values.
pub struct BuilderState {
    /// Tokens are markup (else Rust code).
    pub is_markup: bool,
    /// An include directive is being read.
    pub is_include_tag: bool,
    /// Markup text not yet written as code.
    pub current_text: Seq<char>,
    /// The line of the first token of that text (`-1` before any).
    pub first_text_line: int,
    /// How many `<rust>` blocks are open.
    pub rust_node_count: int,
}

/// The statement that starts the generated code.
pub const CONTENT_DECLARATION: &'static str = "let mut __html_macro_content = String::new();\n";

/// `s` ends with `w`.
pub open spec fn ends_with(s: Seq<char>, w: Seq<char>) -> bool {
    s.len() >= w.len() && s.subrange(s.len() - w.len(), s.len() as int) == w
}

/// The tag `<name>` starts at `i`.
pub open spec fn tag_start_at(ts: Seq<TokenView>, name: Seq<char>, i: int) -> bool {
    &&& 0 <= i
    &&& i + 2 < ts.len()
    &&& ts[i].value == seq!['<']
    &&& ts[i + 1].value == name
    &&& ts[i + 2].value == seq!['>']
}

/// The tag `</name>` starts at `i`.
pub open spec fn tag_end_at(ts: Seq<TokenView>, name: Seq<char>, i: int) -> bool {
    &&& 0 <= i
    &&& i + 3 < ts.len()
    &&& ts[i].value == seq!['<']
    &&& ts[i + 1].value == seq!['/']
    &&& ts[i + 2].value == name
    &&& ts[i + 3].value == seq!['>']
}

/// An include directive `<include` starts at `i`.
pub open spec fn include_at(ts: Seq<TokenView>, i: int) -> bool {
    &&& 0 <= i
    &&& i + 1 < ts.len()
    &&& ts[i].value == seq!['<']
    &&& ts[i + 1].value == "include"@
}

/// The state with the markup text written out.
pub open spec fn cleared(st: BuilderState) -> BuilderState {
    BuilderState { current_text: Seq::empty(), ..st }
}

/// The pieces for the pending markup text.
pub open spec fn text_node_pieces(st: BuilderState) -> Result<Seq<CodePiece>, ErrorView> {
    if st.current_text.len() == 0 {
        Ok(Seq::empty())
    } else {
        markup_pieces(st.current_text, st.first_text_line)
    }
}

/// The state after a markup token's text is added.
pub open spec fn with_text(st: BuilderState, text: Seq<char>, line: int) -> BuilderState {
    BuilderState {
        current_text: st.current_text + text,
        first_text_line: if st.current_text.len() == 0 {
            line
        } else {
            st.first_text_line
        },
        ..st
    }
}

/// Markup text that ends in a `<rust>` or `</rust>` tag, which the
/// builder never holds: the tag would have been read as a tag.
pub open spec fn ends_in_rust_tag(text: Seq<char>) -> bool {
    ends_with(text, "<rust>"@) || ends_with(text, "</rust>"@)
}

/// Reads an include directive's expression from `j` on: the position after
/// the closing `/>` and the text read, or `None` when the tokens run out
/// first.
pub open spec fn include_scan(ts: Seq<TokenView>, j: int, acc: Seq<char>) -> Option<(int, Seq<char>)>
    decreases ts.len() - j,
{
    if j < 0 || j + 1 >= ts.len() {
        None
    } else if ts[j].value == seq!['/'] && ts[j + 1].value == seq!['>'] {
        Some((j + 2, acc))
    } else {
        include_scan(ts, j + 1, acc + ts[j].text())
    }
}

pub proof fn lemma_include_scan(ts: Seq<TokenView>, j: int, acc: Seq<char>)
    ensures
        include_scan(ts, j, acc) matches Some((k, _)) ==> j + 2 <= k <= ts.len(),
    decreases ts.len() - j,
{
    if 0 <= j && j + 1 < ts.len() && !(ts[j].value == seq!['/'] && ts[j + 1].value == seq!['>']) {
        lemma_include_scan(ts, j + 1, acc + ts[j].text());
    }
}

/// The hint that comes with include errors.
pub open spec fn include_hint() -> Seq<char> {
    "<include example() />"@
}

/// The error for an include directive without its `/>`.
pub open spec fn no_end_slash_error(line: int) -> ErrorView {
    error_view("No end slash for include tag found."@, include_hint(), line, ErrType::NoIncludeEndSlash)
}

/// The error for an include directive with nothing in it.
pub open spec fn empty_include_error(line: int) -> ErrorView {
    error_view("Empty include expression."@, include_hint(), line, ErrType::Other)
}

/// The error for an include directive that holds no Rust expression.
pub open spec fn invalid_include_error(code: Seq<char>, line: int) -> ErrorView {
    error_view("Invalid include expression: "@ + code, include_hint(), line, ErrType::Other)
}

/// The error for an include directive in Rust code.
pub open spec fn include_outside_error(line: int) -> ErrorView {
    error_view("Include tag outside of markup."@, Seq::empty(), line, ErrType::IncludeOutsideOfMarkup)
}

/// The error for `</rust>` with no `<rust>` open.
pub open spec fn bad_tag_error(line: int) -> ErrorView {
    error_view(
        "</rust> tag seen but no starting <rust> tag found"@,
        Seq::empty(),
        line,
        ErrType::BadTag,
    )
}

/// Whether reading the include directive at `i` comes to the check of its
/// expression: its `/>` is found, and the text before it is not blank.
pub open spec fn include_checked(ts: Seq<TokenView>, i: int) -> bool {
    match include_scan(ts, i + 2, Seq::empty()) {
        None => false,
        Some((_, code)) => trimmed(code).len() > 0,
    }
}

/// The include directive at `i`, where `accepted` is the answer of the
/// check that its expression is a Rust expression: the position after it
/// and its expression, or the error.
pub open spec fn include_outcome(ts: Seq<TokenView>, i: int, accepted: bool) -> Result<(int, Seq<char>), ErrorView> {
    match include_scan(ts, i + 2, Seq::empty()) {
        None => Err(no_end_slash_error(ts[i].line_number)),
        Some((j, code)) => {
            let inc = trimmed(code);
            if inc.len() == 0 {
                Err(empty_include_error(ts[i].line_number))
            } else if !accepted {
                Err(invalid_include_error(inc, ts[i].line_number))
            } else {
                Ok((j, inc))
            }
        },
    }
}

/// Reads the include directive `<include ... />` that starts at `i`: the
/// position after its `/>` and its text without the whitespace around it,
/// or `None` when the tokens end before a `/>`. That text is what the
/// Rust-expression check is asked about.
pub fn include_expression(tokens: &Vec<HtmlToken>, i: usize) -> (r: Option<(usize, String)>)
    requires
        include_at(token_views(tokens@), i as int),
    ensures
        r is None <==> include_scan(token_views(tokens@), i + 2, Seq::empty()) is None,
        r is Some ==> r->Some_0.0 == include_scan(token_views(tokens@), i + 2, Seq::empty())->Some_0.0
            && r->Some_0.1@ == trimmed(include_scan(token_views(tokens@), i + 2, Seq::empty())->Some_0.1),
{
    let ghost ts = token_views(tokens@);
    let ghost start = i + 2;
    let mut include_code_string = String::new();
    let length = tokens.len();
    let mut position = i + 2;
    loop
        invariant
            ts == token_views(tokens@),
            length == tokens@.len(),
            start == i + 2,
            start <= position <= length,
            include_scan(ts, position as int, include_code_string@) == include_scan(ts, start, Seq::empty()),
        decreases length - position,
    {
        if position >= length || length - position < 2 {
            return None;
        }
        let token = &tokens[position];
        let next_token = &tokens[position + 1];
        if is_single_char(token.value.as_str(), '/') && is_single_char(next_token.value.as_str(), '>') {
            let inc_code = trim_white_space(include_code_string.as_str()).to_owned();
            return Some((position + 2, inc_code));
        }
        let text = token.to_text();
        include_code_string.append(text.as_str());
        position = position + 1;
    }
}

/// The statement for an include directive whose trimmed text is
/// `inc_code`, on line `line`, where `accepted` is the answer of the check
/// that the text is a Rust expression: the push of the expression's
/// `String`, or the error for an empty or a refused expression.
pub fn include_statement(inc_code: &str, accepted: bool, line: isize) -> (r: Result<String, HtmlError>)
    ensures
        inc_code@.len() == 0 ==> (r is Err && r->Err_0@ == empty_include_error(line as int)),
        inc_code@.len() > 0 && !accepted ==> (r is Err && r->Err_0@ == invalid_include_error(
            inc_code@,
            line as int,
        )),
        inc_code@.len() > 0 && accepted ==> (r is Ok && r->Ok_0@ == piece_text(
            CodePiece::Include(inc_code@),
            Seq::empty(),
        )),
{
    if inc_code.unicode_len() == 0 {
        return Err(
            HtmlError {
                message: String::from_str("Empty include expression."),
                hint: String::from_str("<include example() />"),
                line,
                err_type: ErrType::Other,
            },
        );
    }
    if !accepted {
        let mut message = String::from_str("Invalid include expression: ");
        message.append(inc_code);
        return Err(
            HtmlError {
                message,
                hint: String::from_str("<include example() />"),
                line,
                err_type: ErrType::Other,
            },
        );
    }
    let mut rust = String::new();
    rust.append(INCLUDE_START);
    rust.append(inc_code);
    rust.append(INCLUDE_END);
    Ok(rust)
}

/// `new_code` is `old_code` followed by code for the pieces `ps`.
pub open spec fn code_extends(ps: Seq<CodePiece>, old_code: Seq<char>, new_code: Seq<char>) -> bool {
    exists|c: Seq<char>| #[trigger] rendered_as(ps, c) && new_code == old_code + c
}

pub proof fn lemma_code_extends(ps: Seq<CodePiece>, old_code: Seq<char>, c: Seq<char>, new_code: Seq<char>)
    requires
        rendered_as(ps, c),
        new_code == old_code + c,
    ensures
        code_extends(ps, old_code, new_code),
{
}

/// How processing tokens ends.
pub enum BuildOutcome {
    /// All tokens read: the final state and the pieces of code.
    Finished(BuilderState, Seq<CodePiece>),
    /// An error: the state and the pieces of code up to it.
    Failed(BuilderState, Seq<CodePiece>, ErrorView),
    /// The markup text came to end in a `<rust>` or `</rust>` tag.
    Halted,
}

/// Processing from `i` on, in state `st`, with pieces `ps` written so far;
/// `answers` are, in order, the answers of the checks of the include
/// expressions still to come (a missing answer counts as a refusal).
#[verifier::opaque]
pub open spec fn build_from(
    ts: Seq<TokenView>,
    i: int,
    st: BuilderState,
    ps: Seq<CodePiece>,
    answers: Seq<bool>,
) -> BuildOutcome
    decreases ts.len() - i,
{
    if i < 0 || i >= ts.len() {
        match text_node_pieces(st) {
            Ok(q) => BuildOutcome::Finished(cleared(st), ps + q),
            Err(e) => BuildOutcome::Failed(st, ps, e),
        }
    } else if include_at(ts, i) {
        if !st.is_markup {
            BuildOutcome::Failed(st, ps, include_outside_error(ts[i].line_number))
        } else {
            match text_node_pieces(st) {
                Err(e) => BuildOutcome::Failed(st, ps, e),
                Ok(q) => {
                    let s1 = BuilderState { is_include_tag: true, ..cleared(st) };
                    let s2 = BuilderState { is_include_tag: false, ..s1 };
                    match include_outcome(ts, i, answers.len() > 0 && answers[0]) {
                        Err(e) => BuildOutcome::Failed(
                            if include_scan(ts, i + 2, Seq::empty()) is None {
                                s1
                            } else {
                                s2
                            },
                            ps + q,
                            e,
                        ),
                        Ok((j, inc)) => {
                            proof {
                                lemma_include_scan(ts, i + 2, Seq::empty());
                            }
                            build_from(
                                ts,
                                j,
                                s2,
                                ps + q + seq![CodePiece::Include(inc)],
                                answers.drop_first(),
                            )
                        },
                    }
                },
            }
        }
    } else if tag_start_at(ts, "rust"@, i) {
        let s1 = BuilderState { is_markup: false, rust_node_count: st.rust_node_count + 1, ..st };
        match text_node_pieces(s1) {
            Err(e) => BuildOutcome::Failed(s1, ps, e),
            Ok(q) => build_from(ts, i + 3, cleared(s1), ps + q, answers),
        }
    } else if tag_end_at(ts, "rust"@, i) {
        if st.rust_node_count == 0 {
            BuildOutcome::Failed(st, ps, bad_tag_error(ts[i].line_number))
        } else {
            let s1 = BuilderState { is_markup: true, rust_node_count: st.rust_node_count - 1, ..st };
            match text_node_pieces(s1) {
                Err(e) => BuildOutcome::Failed(s1, ps, e),
                Ok(q) => build_from(ts, i + 4, cleared(s1), ps + q, answers),
            }
        }
    } else if tag_start_at(ts, "markup"@, i) && !st.is_markup {
        let s1 = BuilderState { is_markup: true, ..st };
        match text_node_pieces(s1) {
            Err(e) => BuildOutcome::Failed(s1, ps, e),
            Ok(q) => build_from(ts, i + 3, cleared(s1), ps + q, answers),
        }
    } else if tag_end_at(ts, "markup"@, i) {
        let s1 = BuilderState { is_markup: false, ..st };
        match text_node_pieces(s1) {
            Err(e) => BuildOutcome::Failed(s1, ps, e),
            Ok(q) => build_from(ts, i + 4, cleared(s1), ps + q, answers),
        }
    } else if st.is_markup {
        let s1 = with_text(st, ts[i].text(), ts[i].line_number);
        if ends_in_rust_tag(s1.current_text) {
            BuildOutcome::Halted
        } else {
            build_from(ts, i + 1, s1, ps, answers)
        }
    } else {
        build_from(ts, i + 1, st, ps + seq![CodePiece::Code(ts[i].text())], answers)
    }
}

/// Processing all tokens from state `st`, with `answers` those of the
/// include checks: the code starts with the declaration of the HTML string.
pub open spec fn process_outcome(st: BuilderState, ts: Seq<TokenView>, answers: Seq<bool>) -> BuildOutcome {
    build_from(ts, 0, st, seq![CodePiece::Code(CONTENT_DECLARATION@)], answers)
}

/// A builder that returned `r`, and is left in state `st` with `new_code`
/// where it had `old_code`, ended as `o` says.
pub open spec fn outcome_agrees(
    o: BuildOutcome,
    r: Result<(), HtmlError>,
    st: BuilderState,
    old_code: Seq<char>,
    new_code: Seq<char>,
) -> bool {
    match o {
        BuildOutcome::Finished(s, ps) => r is Ok && st == s && code_extends(ps, old_code, new_code),
        BuildOutcome::Failed(s, ps, e) => r is Err && r->Err_0@ == e && st == s && code_extends(
            ps,
            old_code,
            new_code,
        ),
        BuildOutcome::Halted => false,
    }
}

/// Processing `ts` from `st` ended as it does for some answers of the
/// include checks.
pub open spec fn agrees_for_some(
    st0: BuilderState,
    ts: Seq<TokenView>,
    r: Result<(), HtmlError>,
    st: BuilderState,
    old_code: Seq<char>,
    new_code: Seq<char>,
) -> bool {
    exists|a: Seq<bool>| #[trigger] outcome_agrees(process_outcome(st0, ts, a), r, st, old_code, new_code)
}

pub proof fn lemma_agrees_for_some(
    st0: BuilderState,
    ts: Seq<TokenView>,
    a: Seq<bool>,
    r: Result<(), HtmlError>,
    st: BuilderState,
    old_code: Seq<char>,
    new_code: Seq<char>,
)
    requires
        outcome_agrees(process_outcome(st0, ts, a), r, st, old_code, new_code),
    ensures
        agrees_for_some(st0, ts, r, st, old_code, new_code),
{
}

/// Processing from `i` after a tag that writes the pending markup of `s1`
/// and goes on at `next`.
pub open spec fn switch_outcome(
    ts: Seq<TokenView>,
    next: int,
    s1: BuilderState,
    ps: Seq<CodePiece>,
    answers: Seq<bool>,
) -> BuildOutcome {
    match text_node_pieces(s1) {
        Err(e) => BuildOutcome::Failed(s1, ps, e),
        Ok(q) => build_from(ts, next, cleared(s1), ps + q, answers),
    }
}

/// Processing from `i` in state `st` with pieces `ps` ends, for every
/// answers `a`, as processing all tokens does for `past + a`.
pub open spec fn on_track(
    st0: BuilderState,
    ts: Seq<TokenView>,
    past: Seq<bool>,
    i: int,
    st: BuilderState,
    ps: Seq<CodePiece>,
) -> bool {
    forall|a: Seq<bool>| #[trigger] build_from(ts, i, st, ps, a) == process_outcome(st0, ts, past + a)
}

/// Code for pieces `q` written after code for `ps`.
proof fn lemma_written(
    ps: Seq<CodePiece>,
    added: Seq<char>,
    q: Seq<CodePiece>,
    code0: Seq<char>,
    before: Seq<char>,
    after: Seq<char>,
) -> (added2: Seq<char>)
    requires
        rendered_as(ps, added),
        before == code0 + added,
        exists|c: Seq<char>| rendered_as(q, c) && after == before + c,
    ensures
        rendered_as(ps + q, added2),
        after == code0 + added2,
{
    let c = choose|c: Seq<char>| rendered_as(q, c) && after == before + c;
    lemma_rendered_concat(ps, added, q, c);
    assert(after =~= code0 + (added + c));
    added + c
}

/// Processing that stays on track through one step stays on track.
proof fn lemma_step(
    st0: BuilderState,
    ts: Seq<TokenView>,
    past: Seq<bool>,
    i: int,
    st: BuilderState,
    ps: Seq<CodePiece>,
    next: int,
    s: BuilderState,
    ps2: Seq<CodePiece>,
)
    requires
        on_track(st0, ts, past, i, st, ps),
        forall|a: Seq<bool>| #![trigger build_from(ts, next, s, ps2, a)]
            build_from(ts, i, st, ps, a) == build_from(ts, next, s, ps2, a),
    ensures
        on_track(st0, ts, past, next, s, ps2),
{
    assert forall|a: Seq<bool>| #[trigger] build_from(ts, next, s, ps2, a) == process_outcome(
        st0,
        ts,
        past + a,
    ) by {
        assert(build_from(ts, i, st, ps, a) == process_outcome(st0, ts, past + a));
    }
}

/// An error at a step that is on track, for the answers `answers` from
/// there, is how processing all tokens ends for some answers.
proof fn lemma_failed(
    st0: BuilderState,
    ts: Seq<TokenView>,
    past: Seq<bool>,
    answers: Seq<bool>,
    i: int,
    st: BuilderState,
    ps: Seq<CodePiece>,
    s_f: BuilderState,
    ps_f: Seq<CodePiece>,
    r: Result<(), HtmlError>,
    added: Seq<char>,
    code0: Seq<char>,
    code: Seq<char>,
)
    requires
        on_track(st0, ts, past, i, st, ps),
        build_from(ts, i, st, ps, answers) matches BuildOutcome::Failed(s, p, e) && s == s_f && p == ps_f
            && r is Err && r->Err_0@ == e,
        rendered_as(ps_f, added),
        code == code0 + added,
    ensures
        agrees_for_some(st0, ts, r, s_f, code0, code),
{
    assert(build_from(ts, i, st, ps, answers) == process_outcome(st0, ts, past + answers));
    lemma_code_extends(ps_f, code0, added, code);
    lemma_agrees_for_some(st0, ts, past + answers, r, s_f, code0, code);
}

/// After a tag whose pending markup was written: on track at `next`, and
/// the code grew by that markup's code.
proof fn lemma_switch_done(
    st0: BuilderState,
    ts: Seq<TokenView>,
    past: Seq<bool>,
    i: int,
    st: BuilderState,
    ps: Seq<CodePiece>,
    next: int,
    s1: BuilderState,
    added: Seq<char>,
    code0: Seq<char>,
    before: Seq<char>,
    after: Seq<char>,
) -> (added2: Seq<char>)
    requires
        on_track(st0, ts, past, i, st, ps),
        forall|a: Seq<bool>| #[trigger] build_from(ts, i, st, ps, a) == switch_outcome(ts, next, s1, ps, a),
        text_node_pieces(s1) is Ok,
        rendered_as(ps, added),
        before == code0 + added,
        exists|c: Seq<char>| rendered_as(text_node_pieces(s1)->Ok_0, c) && after == before + c,
    ensures
        on_track(st0, ts, past, next, cleared(s1), ps + text_node_pieces(s1)->Ok_0),
        rendered_as(ps + text_node_pieces(s1)->Ok_0, added2),
        after == code0 + added2,
{
    let q = text_node_pieces(s1)->Ok_0;
    assert forall|a: Seq<bool>| #![trigger build_from(ts, next, cleared(s1), ps + q, a)]
        build_from(ts, i, st, ps, a) == build_from(ts, next, cleared(s1), ps + q, a) by {
        assert(build_from(ts, i, st, ps, a) == switch_outcome(ts, next, s1, ps, a));
    }
    lemma_step(st0, ts, past, i, st, ps, next, cleared(s1), ps + q);
    lemma_written(ps, added, q, code0, before, after)
}

/// After a tag whose pending markup has an error: how processing all
/// tokens ends for some answers.
proof fn lemma_switch_failed(
    st0: BuilderState,
    ts: Seq<TokenView>,
    past: Seq<bool>,
    i: int,
    st: BuilderState,
    ps: Seq<CodePiece>,
    next: int,
    s1: BuilderState,
    r: Result<(), HtmlError>,
    added: Seq<char>,
    code0: Seq<char>,
    code: Seq<char>,
)
    requires
        on_track(st0, ts, past, i, st, ps),
        forall|a: Seq<bool>| #[trigger] build_from(ts, i, st, ps, a) == switch_outcome(ts, next, s1, ps, a),
        text_node_pieces(s1) is Err,
        r is Err,
        r->Err_0@ == text_node_pieces(s1)->Err_0,
        rendered_as(ps, added),
        code == code0 + added,
    ensures
        agrees_for_some(st0, ts, r, s1, code0, code),
{
    assert(build_from(ts, i, st, ps, Seq::empty()) == switch_outcome(ts, next, s1, ps, Seq::empty()));
    lemma_failed(st0, ts, past, Seq::empty(), i, st, ps, s1, ps, r, added, code0, code);
}

/// The newlines in the tokens from `i` on.
pub open spec fn newlines_after(ts: Seq<TokenView>, i: int) -> nat {
    newlines(joined(ts.subrange(i, ts.len() as int)))
}

pub proof fn lemma_newlines_after_step(ts: Seq<TokenView>, i: int)
    requires
        0 <= i < ts.len(),
    ensures
        newlines_after(ts, i) == newlines(ts[i].text()) + newlines_after(ts, i + 1),
{
    let rest = ts.subrange(i + 1, ts.len() as int);
    assert(ts.subrange(i, ts.len() as int) == seq![ts[i]] + rest);
    lemma_joined_cons(ts[i], rest);
    lemma_newlines_concat(ts[i].text(), joined(rest));
}

/// The newlines after the start are those of all tokens.
pub proof fn lemma_newlines_after_whole(ts: Seq<TokenView>)
    ensures
        newlines_after(ts, 0) == newlines(joined(ts)),
{
    assert(ts.subrange(0, ts.len() as int) == ts);
}

pub proof fn lemma_newlines_after_mono(ts: Seq<TokenView>, i: int, j: int)
    requires
        0 <= i <= j <= ts.len(),
    ensures
        newlines_after(ts, j) <= newlines_after(ts, i),
    decreases j - i,
{
    if i < j {
        lemma_newlines_after_step(ts, i);
        lemma_newlines_after_mono(ts, i + 1, j);
    }
}

/// The line counts of the markup runs cannot overflow: every token's line
/// plus all the newlines of the tokens fits in an `isize`, and so does
/// the pending text's.
pub open spec fn lines_fit(st: BuilderState, ts: Seq<TokenView>) -> bool {
    &&& forall|k: int|
        0 <= k < ts.len() ==> (#[trigger] ts[k]).line_number + newlines_after(ts, 0) <= isize::MAX
    &&& st.current_text.len() > 0 ==> st.first_text_line + newlines(st.current_text)
        + newlines_after(ts, 0) <= isize::MAX
}


/// Builds the Rust code for a template from its tokens.
pub struct HtmlContentBuilder {
    is_markup: bool,
    is_include_tag: bool,
    current_text: String,
    first_text_line: isize,
    rust_node_count: u32,
    rust_buffer: String,
}

/// The token at `i + offset`, if there is one.
pub fn peek(tokens: &Vec<HtmlToken>, i: usize, offset: usize) -> (r: Option<HtmlToken>)
    ensures
        i + offset < tokens@.len() ==> (r matches Some(t) && t@ == tokens@[i + offset]@),
        i + offset >= tokens@.len() ==> r is None,
{
    let len = tokens.len();
    if i >= len || offset >= len - i {
        return None;
    }
    Some(tokens[i + offset].duplicate())
}

/// Whether the tag `<tag>` starts at `i`.
pub fn is_tag_start(tag: &str, tokens: &Vec<HtmlToken>, i: usize) -> (r: bool)
    ensures
        r == tag_start_at(token_views(tokens@), tag@, i as int),
{
    if i >= tokens.len() || tokens.len() - i <= 2 {
        return false;
    }
    let start = &tokens[i].value;
    let name = &tokens[i + 1].value;
    let end = &tokens[i + 2].value;
    if is_single_char(start.as_str(), '<') && text_equals(name.as_str(), tag) && is_single_char(
        end.as_str(),
        '>',
    ) {
        return true;
    }
    false
}

/// Whether the tag `</tag>` starts at `i`.
pub fn is_tag_end(tag: &str, tokens: &Vec<HtmlToken>, i: usize) -> (r: bool)
    ensures
        r == tag_end_at(token_views(tokens@), tag@, i as int),
{
    if i >= tokens.len() || tokens.len() - i <= 3 {
        return false;
    }
    let start = &tokens[i].value;
    let slash = &tokens[i + 1].value;
    let name = &tokens[i + 2].value;
    let end = &tokens[i + 3].value;
    if is_single_char(start.as_str(), '<') && is_single_char(slash.as_str(), '/') && text_equals(
        name.as_str(),
        tag,
    ) && is_single_char(end.as_str(), '>') {
        return true;
    }
    false
}

/// Whether `<rust>` starts at `i`.
pub fn next_is_rust_start(tokens: &Vec<HtmlToken>, i: usize) -> (r: bool)
    ensures
        r == tag_start_at(token_views(tokens@), "rust"@, i as int),
{
    return is_tag_start("rust", tokens, i);
}

/// Whether `</rust>` starts at `i`.
pub fn next_is_rust_end(tokens: &Vec<HtmlToken>, i: usize) -> (r: bool)
    ensures
        r == tag_end_at(token_views(tokens@), "rust"@, i as int),
{
    return is_tag_end("rust", tokens, i);
}

/// Whether `<markup>` starts at `i`.
pub fn next_is_markup_start(tokens: &Vec<HtmlToken>, i: usize) -> (r: bool)
    ensures
        r == tag_start_at(token_views(tokens@), "markup"@, i as int),
{
    return is_tag_start("markup", tokens, i);
}

/// Whether an include directive `<include` starts at `i`.
pub fn next_is_include_tag(tokens: &Vec<HtmlToken>, i: usize) -> (r: bool)
    ensures
        r == include_at(token_views(tokens@), i as int),
{
    if i >= tokens.len() || tokens.len() - i <= 1 {
        return false;
    }
    let start = &tokens[i].value;
    let name = &tokens[i + 1].value;
    if is_single_char(start.as_str(), '<') && text_equals(name.as_str(), "include") {
        return true;
    }
    false
}

impl HtmlContentBuilder {
    /// The state, as plain values.
    pub closed spec fn state(&self) -> BuilderState {
        BuilderState {
            is_markup: self.is_markup,
            is_include_tag: self.is_include_tag,
            current_text: self.current_text@,
            first_text_line: self.first_text_line as int,
            rust_node_count: self.rust_node_count as int,
        }
    }

    /// The code written so far.
    pub closed spec fn code(&self) -> Seq<char> {
        self.rust_buffer@
    }

    /// A builder in markup mode with nothing written.
    pub fn new() -> (r: HtmlContentBuilder)
        ensures
            r.state() == (BuilderState {
                is_markup: true,
                is_include_tag: false,
                current_text: Seq::empty(),
                first_text_line: -1,
                rust_node_count: 0,
            }),
            r.code() == Seq::<char>::empty(),
    {
        HtmlContentBuilder {
            is_markup: true,
            is_include_tag: false,
            current_text: String::new(),
            first_text_line: -1,
            rust_node_count: 0,
            rust_buffer: String::new(),
        }
    }

    /// The code written so far.
    pub fn rust_code(&self) -> (r: String)
        ensures
            r@ == self.code(),
    {
        self.rust_buffer.clone()
    }

    /// Writes the pending markup text as code and empties it.
    fn make_text_node(&mut self) -> (r: Result<(), HtmlError>)
        requires
            old(self).state().current_text.len() > 0 ==> old(self).state().first_text_line
                + newlines(old(self).state().current_text) <= isize::MAX,
        ensures
            r is Ok <==> text_node_pieces(old(self).state()) is Ok,
            r is Ok ==> final(self).state() == cleared(old(self).state()) && exists|c: Seq<char>|
                rendered_as(text_node_pieces(old(self).state())->Ok_0, c) && final(self).code()
                    == old(self).code() + c,
            r is Err ==> *final(self) == *old(self) && r->Err_0@ == text_node_pieces(
                old(self).state(),
            )->Err_0,
    {
        if self.current_text.unicode_len() != 0 {
            let line = self.first_text_line;
            let rust_push_to_html_string = match html_quotes(self.current_text.as_str(), line) {
                Ok(code) => code,
                Err(e) => {
                    return Err(e);
                },
            };
            self.rust_buffer.append(rust_push_to_html_string.as_str());
            self.current_text = String::new();
            assert(rendered_as(text_node_pieces(old(self).state())->Ok_0, rust_push_to_html_string@));
            assert(self.code() == old(self).code() + rust_push_to_html_string@);
            assert(self.state() == cleared(old(self).state()));
        } else {
            proof {
                lemma_rendered_empty();
                assert(old(self).code() + Seq::<char>::empty() == old(self).code());
                assert(self.current_text@ =~= Seq::<char>::empty());
                assert(rendered_as(text_node_pieces(old(self).state())->Ok_0, Seq::<char>::empty()));
                assert(self.state() == cleared(old(self).state()));
            }
        }
        Ok(())
    }

    /// Adds markup text that stood on `line_number`.
    fn push_str(&mut self, token: &str, line_number: isize)
        requires
            !ends_in_rust_tag(old(self).state().current_text + token@),
        ensures
            final(self).state() == with_text(old(self).state(), token@, line_number as int),
            final(self).code() == old(self).code(),
    {
        if self.current_text.unicode_len() == 0 {
            self.first_text_line = line_number;
        }
        self.current_text.append(token);
    }

    /// Adds a markup token's text.
    fn add_token_to_text(&mut self, token: &HtmlToken)
        requires
            !ends_in_rust_tag(old(self).state().current_text + token@.text()),
        ensures
            final(self).state() == with_text(
                old(self).state(),
                token@.text(),
                token@.line_number,
            ),
            final(self).code() == old(self).code(),
    {
        let text = token.to_text();
        self.push_str(text.as_str(), token.line_number);
    }

    /// Reads the include directive at `current_index` and writes the code
    /// that pushes the included expression's `String`; returns the position
    /// after the directive's `/>`. Where the tokens end right after
    /// `<include`, this is the error for a missing `/>`. Whether the
    /// directive's text is a Rust expression is syn's answer: on success
    /// it said yes, and an error is the one for a refusal where the check
    /// was made.
    fn process_include(&mut self, tokens: &Vec<HtmlToken>, current_index: usize) -> (r: Result<usize, HtmlError>)
        requires
            include_at(token_views(tokens@), current_index as int),
        ensures
            r is Ok ==> {
                let o = include_outcome(token_views(tokens@), current_index as int, true);
                &&& include_checked(token_views(tokens@), current_index as int)
                &&& o is Ok
                &&& r->Ok_0 == o->Ok_0.0
                &&& final(self).state() == (BuilderState { is_include_tag: false, ..old(self).state() })
                &&& final(self).code() == old(self).code() + piece_text(CodePiece::Include(o->Ok_0.1), Seq::empty())
            },
            r is Err ==> {
                &&& r->Err_0@ == include_outcome(token_views(tokens@), current_index as int, false)->Err_0
                &&& final(self).state() == (BuilderState {
                    is_include_tag: if include_scan(
                        token_views(tokens@),
                        current_index + 2,
                        Seq::empty(),
                    ) is None {
                        old(self).state().is_include_tag
                    } else {
                        false
                    },
                    ..old(self).state()
                })
                &&& final(self).code() == old(self).code()
            },
            !include_checked(token_views(tokens@), current_index as int) ==> r is Err,
            include_outcome(token_views(tokens@), current_index as int, true) is Ok && is_plain_expression(
                include_outcome(token_views(tokens@), current_index as int, true)->Ok_0.1,
            ) ==> r is Ok,
            include_outcome(token_views(tokens@), current_index as int, true) is Ok && is_dangling_arithmetic(
                include_outcome(token_views(tokens@), current_index as int, true)->Ok_0.1,
            ) ==> r is Err,
    {
        let start_line = tokens[current_index].line_number;
        let found = include_expression(tokens, current_index);
        match found {
            None => Err(
                HtmlError {
                    message: String::from_str("No end slash for include tag found."),
                    hint: String::from_str("<include example() />"),
                    line: start_line,
                    err_type: ErrType::NoIncludeEndSlash,
                },
            ),
            Some((position, inc_code)) => {
                self.is_include_tag = false;
                let accepted = if inc_code.unicode_len() == 0 {
                    false
                } else {
                    is_rust_expression(inc_code.as_str())
                };
                let rust = match include_statement(inc_code.as_str(), accepted, start_line) {
                    Ok(code) => code,
                    Err(e) => {
                        return Err(e);
                    },
                };
                self.rust_buffer.append(rust.as_str());
                Ok(position)
            },
        }
    }

    /// Processes all tokens: markup runs are written through
    /// `html_quotes`, Rust code is copied, `<rust>`, `</rust>`,
    /// `<markup>` and `</markup>` switch between the two, and include
    /// directives are written as includes. How it ends is how processing
    /// ends for the answers that syn gave to the include checks.
    #[verifier::rlimit(80)]
    pub fn process_tokens_string(&mut self, input: Vec<HtmlToken>) -> (r: Result<(), HtmlError>)
        requires
            forall|a: Seq<bool>| !(#[trigger] process_outcome(old(self).state(), token_views(input@), a) is Halted),
            lines_fit(old(self).state(), token_views(input@)),
            old(self).state().rust_node_count + input@.len() / 3 <= u32::MAX,
        ensures
            agrees_for_some(
                old(self).state(),
                token_views(input@),
                r,
                final(self).state(),
                old(self).code(),
                final(self).code(),
            ),
    {
        self.rust_buffer.append(CONTENT_DECLARATION);
        let tokens: Vec<HtmlToken> = input;
        let ghost ts = token_views(tokens@);
        let ghost st0 = old(self).state();
        let ghost code0 = old(self).code();
        let ghost mut ps: Seq<CodePiece> = seq![CodePiece::Code(CONTENT_DECLARATION@)];
        let ghost mut added: Seq<char> = CONTENT_DECLARATION@;
        let ghost mut past: Seq<bool> = Seq::empty();
        proof {
            lemma_rendered_single(CodePiece::Code(CONTENT_DECLARATION@));
            assert forall|a: Seq<bool>| #[trigger] build_from(ts, 0, self.state(), ps, a) == process_outcome(
                st0,
                ts,
                past + a,
            ) by {
                assert(past + a =~= a);
            }
        }
        let length = tokens.len();
        let mut current_index: usize = 0;
        while current_index < length
            invariant
                ts == token_views(tokens@),
                ts == token_views(input@),
                st0 == old(self).state(),
                code0 == old(self).code(),
                length == tokens@.len(),
                current_index <= length,
                on_track(st0, ts, past, current_index as int, self.state(), ps),
                forall|a: Seq<bool>| !(#[trigger] process_outcome(st0, ts, a) is Halted),
                rendered_as(ps, added),
                self.code() == code0 + added,
                forall|k: int|
                    0 <= k < ts.len() ==> (#[trigger] ts[k]).line_number + newlines_after(ts, 0)
                        <= isize::MAX,
                self.state().current_text.len() > 0 ==> self.state().first_text_line + newlines(
                    self.state().current_text,
                ) + newlines_after(ts, current_index as int) <= isize::MAX,
                self.rust_node_count <= st0.rust_node_count + current_index / 3,
                st0.rust_node_count + length / 3 <= u32::MAX,
            decreases length - current_index,
        {
            let token = &tokens[current_index];
            let ghost i = current_index as int;
            let ghost st = self.state();
            let ghost ps0 = ps;
            let ghost none = Seq::<bool>::empty();
            proof {
                lemma_newlines_after_mono(ts, 0, i);
            }
            if next_is_include_tag(&tokens, current_index) {
                if !self.is_markup {
                    let err = HtmlError {
                        message: String::from_str("Include tag outside of markup."),
                        hint: String::new(),
                        line: token.line_number,
                        err_type: ErrType::IncludeOutsideOfMarkup,
                    };
                    proof {
                        assert(build_from(ts, i, st, ps0, none) == BuildOutcome::Failed(
                            st,
                            ps0,
                            include_outside_error(ts[i].line_number),
                        )) by {
                            reveal(build_from);
                        }
                        lemma_failed(st0, ts, past, none, i, st, ps0, st, ps0, Err(err), added, code0, self.code());
                    }
                    return Err(err);
                }
                let ghost before = self.code();
                match self.make_text_node() {
                    Ok(()) => {},
                    Err(e) => {
                        proof {
                            assert(build_from(ts, i, st, ps0, none) == BuildOutcome::Failed(st, ps0, e@)) by {
                                reveal(build_from);
                            }
                            lemma_failed(st0, ts, past, none, i, st, ps0, st, ps0, Err(e), added, code0, self.code());
                        }
                        return Err(e);
                    },
                }
                let ghost q = text_node_pieces(st)->Ok_0;
                proof {
                    added = lemma_written(ps0, added, q, code0, before, self.code());
                    ps = ps0 + q;
                }
                self.is_include_tag = true;
                proof {
                    lemma_include_scan(ts, i + 2, Seq::empty());
                }
                let ghost s1 = BuilderState { is_include_tag: true, ..cleared(st) };
                let ghost s2 = BuilderState { is_include_tag: false, ..s1 };
                current_index = match self.process_include(&tokens, current_index) {
                    Ok(next) => next,
                    Err(e) => {
                        proof {
                            let refused = seq![false];
                            assert(build_from(ts, i, st, ps0, refused) == BuildOutcome::Failed(
                                if include_scan(ts, i + 2, Seq::empty()) is None {
                                    s1
                                } else {
                                    s2
                                },
                                ps,
                                e@,
                            )) by {
                                reveal(build_from);
                            }
                            lemma_failed(st0, ts, past, refused, i, st, ps0, self.state(), ps, Err(e), added, code0, self.code());
                        }
                        return Err(e);
                    },
                };
                proof {
                    let inc = include_outcome(ts, i, true)->Ok_0.1;
                    lemma_rendered_single(CodePiece::Include(inc));
                    lemma_rendered_concat(
                        ps,
                        added,
                        seq![CodePiece::Include(inc)],
                        piece_text(CodePiece::Include(inc), Seq::empty()),
                    );
                    added = added + piece_text(CodePiece::Include(inc), Seq::empty());
                    assert(self.code() =~= code0 + added);
                    ps = ps + seq![CodePiece::Include(inc)];
                    let past0 = past;
                    past = past0 + seq![true];
                    lemma_newlines_after_mono(ts, i, current_index as int);
                    assert forall|a: Seq<bool>| #[trigger] build_from(ts, current_index as int, self.state(), ps, a)
                        == process_outcome(st0, ts, past + a) by {
                        let b = seq![true] + a;
                        assert(b.drop_first() =~= a);
                        assert(past0 + b =~= past + a);
                        assert(build_from(ts, i, st, ps0, b) == process_outcome(st0, ts, past0 + b));
                        assert(build_from(ts, i, st, ps0, b) == build_from(ts, current_index as int, s2, ps, a)) by {
                            reveal(build_from);
                        }
                    }
                }
                continue;
            }
            let ghost mut next: int = i;
            let ghost mut s1 = st;
            let mut switched = false;
            if next_is_rust_start(&tokens, current_index) {
                self.is_markup = false;
                self.rust_node_count = self.rust_node_count + 1;
                current_index = current_index + 3;
                switched = true;
                proof {
                    next = i + 3;
                    s1 = self.state();
                    assert forall|a: Seq<bool>| #[trigger] build_from(ts, i, st, ps0, a) == switch_outcome(ts, next, s1, ps0, a) by {
                        reveal(build_from);
                    }
                }
            } else if next_is_rust_end(&tokens, current_index) {
                if self.rust_node_count == 0 {
                    let err = HtmlError {
                        message: String::from_str("</rust> tag seen but no starting <rust> tag found"),
                        hint: String::new(),
                        line: token.line_number,
                        err_type: ErrType::BadTag,
                    };
                    proof {
                        assert(build_from(ts, i, st, ps0, none) == BuildOutcome::Failed(
                            st,
                            ps0,
                            bad_tag_error(ts[i].line_number),
                        )) by {
                            reveal(build_from);
                        }
                        lemma_failed(st0, ts, past, none, i, st, ps0, st, ps0, Err(err), added, code0, self.code());
                    }
                    return Err(err);
                }
                self.is_markup = true;
                current_index = current_index + 4;
                self.rust_node_count = self.rust_node_count - 1;
                switched = true;
                proof {
                    next = i + 4;
                    s1 = self.state();
                    assert forall|a: Seq<bool>| #[trigger] build_from(ts, i, st, ps0, a) == switch_outcome(ts, next, s1, ps0, a) by {
                        reveal(build_from);
                    }
                }
            } else if next_is_markup_start(&tokens, current_index) && !self.is_markup {
                self.is_markup = true;
                current_index = current_index + 3;
                switched = true;
                proof {
                    next = i + 3;
                    s1 = self.state();
                    assert forall|a: Seq<bool>| #[trigger] build_from(ts, i, st, ps0, a) == switch_outcome(ts, next, s1, ps0, a) by {
                        reveal(build_from);
                    }
                }
            } else if self.next_is_markup_end(&tokens, current_index) {
                self.is_markup = false;
                current_index = current_index + 4;
                switched = true;
                proof {
                    next = i + 4;
                    s1 = self.state();
                    assert forall|a: Seq<bool>| #[trigger] build_from(ts, i, st, ps0, a) == switch_outcome(ts, next, s1, ps0, a) by {
                        reveal(build_from);
                    }
                }
            }
            if switched {
                let ghost before = self.code();
                match self.make_text_node() {
                    Ok(()) => {},
                    Err(e) => {
                        proof {
                            lemma_switch_failed(st0, ts, past, i, st, ps0, next, s1, Err(e), added, code0, self.code());
                        }
                        return Err(e);
                    },
                }
                proof {
                    added = lemma_switch_done(st0, ts, past, i, st, ps0, next, s1, added, code0, before, self.code());
                    ps = ps0 + text_node_pieces(s1)->Ok_0;
                    lemma_newlines_after_mono(ts, i, next);
                }
                continue;
            }
            let regular_token = token;
            proof {
                lemma_newlines_after_step(ts, i);
            }
            if self.is_markup {
                let ghost s1 = with_text(st, ts[i].text(), ts[i].line_number);
                proof {
                    lemma_newlines_concat(st.current_text, ts[i].text());
                    assert(build_from(ts, i, st, ps0, none) == if ends_in_rust_tag(s1.current_text) {
                        BuildOutcome::Halted
                    } else {
                        build_from(ts, i + 1, s1, ps0, none)
                    }) by {
                        reveal(build_from);
                    }
                    assert(build_from(ts, i, st, ps0, none) == process_outcome(st0, ts, past + none));
                    assert(!(process_outcome(st0, ts, past + none) is Halted));
                    assert(!ends_in_rust_tag(s1.current_text));
                    assert forall|a: Seq<bool>| #![trigger build_from(ts, i + 1, s1, ps0, a)]
                        build_from(ts, i, st, ps0, a) == build_from(ts, i + 1, s1, ps0, a) by {
                        reveal(build_from);
                    }
                    assert(regular_token@ == ts[i]);
                    lemma_step(st0, ts, past, i, st, ps0, i + 1, s1, ps0);
                }
                self.add_token_to_text(regular_token);
            } else {
                let text = regular_token.to_text();
                self.rust_buffer.append(text.as_str());
                proof {
                    let code = seq![CodePiece::Code(ts[i].text())];
                    lemma_rendered_single(CodePiece::Code(ts[i].text()));
                    lemma_rendered_concat(ps, added, code, ts[i].text());
                    added = added + ts[i].text();
                    ps = ps + code;
                    assert forall|a: Seq<bool>| #![trigger build_from(ts, i + 1, st, ps, a)]
                        build_from(ts, i, st, ps0, a) == build_from(ts, i + 1, st, ps, a) by {
                        reveal(build_from);
                    }
                    lemma_step(st0, ts, past, i, st, ps0, i + 1, st, ps);
                }
            }
            current_index = current_index + 1;
        }
        let ghost before = self.code();
        let ghost st = self.state();
        let ghost ps0 = ps;
        let ghost none = Seq::<bool>::empty();
        proof {
            assert(build_from(ts, current_index as int, st, ps0, none) == match text_node_pieces(st) {
                Ok(q) => BuildOutcome::Finished(cleared(st), ps0 + q),
                Err(e) => BuildOutcome::Failed(st, ps0, e),
            }) by {
                reveal(build_from);
            }
        }
        match self.make_text_node() {
            Ok(()) => {},
            Err(e) => {
                proof {
                    lemma_failed(st0, ts, past, none, current_index as int, st, ps0, st, ps0, Err(e), added, code0, self.code());
                }
                return Err(e);
            },
        }
        proof {
            assert(build_from(ts, current_index as int, st, ps0, none) == process_outcome(st0, ts, past + none));
            added = lemma_written(ps0, added, text_node_pieces(st)->Ok_0, code0, before, self.code());
            ps = ps0 + text_node_pieces(st)->Ok_0;
            lemma_code_extends(ps, code0, added, self.code());
            lemma_agrees_for_some(st0, ts, past + none, Ok(()), self.state(), code0, self.code());
        }
        Ok(())
    }

    /// Whether `</markup>` starts at `i`.
    fn next_is_markup_end(&self, tokens: &Vec<HtmlToken>, i: usize) -> (r: bool)
        ensures
            r == tag_end_at(token_views(tokens@), "markup"@, i as int),
    {
        return is_tag_end("markup", tokens, i);
    }
}

} // verus!
