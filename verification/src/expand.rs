//! The whole expansion of a template: the text between the template's
//! outer brackets is lexed, and its tokens are processed into code.

use vstd::prelude::*;
use crate::htmlcontentbuilder::{
    lemma_newlines_after_whole, lines_fit, newlines_after, outcome_agrees, process_outcome,
    BuildOutcome, BuilderState, HtmlContentBuilder, HtmlError,
};
use crate::htmllexer::{
    lemma_lex_count, lemma_lex_lines, lemma_lex_newlines, lemma_lex_well_formed, lex_at,
    token_views, HtmlDynamicLexer,
};
use crate::htmlquotes::rendered_as;
use crate::markuptext::{lemma_lexed_tokens_never_halt, lemma_markup_never_holds_rust_tag, markup_free};
use crate::text::newlines;

verus! {

broadcast use vstd::string::group_string_axioms;

/// The state of a new content builder.
pub open spec fn initial_state() -> BuilderState {
    BuilderState {
        is_markup: true,
        is_include_tag: false,
        current_text: Seq::empty(),
        first_text_line: -1,
        rust_node_count: 0,
    }
}

/// The template's text without its outer brackets.
pub open spec fn template_body(source: Seq<char>) -> Seq<char> {
    source.subrange(1, source.len() - 1)
}

/// How expanding the template `source`, whose first line is `line`, ends,
/// where `answers` are, in order, those of the checks that include
/// expressions are Rust expressions.
pub open spec fn expansion(source: Seq<char>, line: int, answers: Seq<bool>) -> BuildOutcome {
    process_outcome(initial_state(), lex_at(template_body(source), 0, line), answers)
}

/// `r` is what an expansion that ends as `o` returns: the code for its
/// pieces, or its error.
pub open spec fn expansion_result(o: BuildOutcome, r: Result<String, HtmlError>) -> bool {
    match o {
        BuildOutcome::Finished(_, ps) => r is Ok && rendered_as(ps, r->Ok_0@),
        BuildOutcome::Failed(_, _, e) => r is Err && r->Err_0@ == e,
        BuildOutcome::Halted => false,
    }
}

/// Expands a template: `source` is the template with its outer brackets,
/// `line` the line it starts on. The result is the Rust code that builds
/// the HTML string in `__html_macro_content`, or the template's first
/// error. Whether each include expression is a Rust expression is syn's
/// answer: the result is the expansion for the answers it gave.
pub fn expand_html(source: &str, line: isize) -> (r: Result<String, HtmlError>)
    requires
        source@.len() >= 2,
        (source@[0] as u32) < 128,
        (source@.last() as u32) < 128,
        line + 2 * newlines(template_body(source@)) <= isize::MAX,
        template_body(source@).len() / 3 <= u32::MAX,
    ensures
        forall|answers: Seq<bool>| !(#[trigger] expansion(source@, line as int, answers) is Halted),
        exists|answers: Seq<bool>| #[trigger] expansion_result(expansion(source@, line as int, answers), r),
{
    let n = source.unicode_len();
    let body = source.substring_char(1, n - 1);
    let ghost b = body@;
    let mut lexer = HtmlDynamicLexer::new(body, line);
    lexer.lex();
    let tokens = lexer.into_tokens();
    let ghost ts = token_views(tokens@);
    let mut content_builder = HtmlContentBuilder::new();
    proof {
        assert(ts == lex_at(b, 0, line as int));
        lemma_lex_well_formed(b, 0, line as int);
        lemma_lexed_tokens_never_halt(initial_state(), ts);
        lemma_lex_lines(b, 0, line as int);
        lemma_lex_newlines(b, line as int);
        lemma_lex_count(b, 0, line as int);
        lemma_newlines_after_whole(ts);
        assert forall|k: int| 0 <= k < ts.len() implies (#[trigger] ts[k]).line_number
            + newlines_after(ts, 0) <= isize::MAX by {
        }
        assert(lines_fit(initial_state(), ts));
    }
    let ghost code0 = content_builder.code();
    let processed = content_builder.process_tokens_string(tokens);
    let ghost a = choose|a: Seq<bool>| #[trigger] outcome_agrees(
        process_outcome(initial_state(), ts, a),
        processed,
        content_builder.state(),
        code0,
        content_builder.code(),
    );
    let r = match processed {
        Ok(()) => {
            let code = content_builder.rust_code();
            Ok(code)
        },
        Err(e) => Err(e),
    };
    proof {
        assert(code0 + content_builder.code() =~= content_builder.code());
        assert(expansion_result(expansion(source@, line as int, a), r));
    }
    r
}

/// Law: the markup that an expanded template pushes never holds a `<rust>`
/// or `</rust>` tag, whatever the template and whatever the include checks
/// answer.
pub proof fn lemma_expansion_markup_has_no_rust_tag(source: Seq<char>, line: int, answers: Seq<bool>)
    ensures
        expansion(source, line, answers) is Finished ==> markup_free(
            expansion(source, line, answers)->Finished_1,
        ),
{
    let body = template_body(source);
    lemma_lex_well_formed(body, 0, line);
    lemma_markup_never_holds_rust_tag(initial_state(), lex_at(body, 0, line));
}

} // verus!
