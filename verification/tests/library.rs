use kaja_html_macro::expand::expand_html;
use kaja_html_macro::htmlcontentbuilder::{
    decimal_string, include_expression, include_statement, is_tag_end, is_tag_start, next_is_include_tag, next_is_markup_start,
    next_is_rust_end, next_is_rust_start, peek, ErrType, HtmlContentBuilder, HtmlError,
};
use kaja_html_macro::htmllexer::{HtmlDynamicLexer, HtmlToken};
use kaja_html_macro::htmlquotes::{html_quotes, variable_name_of, ESCAPE_BLOCK};

fn tokens(text: &str) -> Vec<HtmlToken> {
    let mut lexer = HtmlDynamicLexer::new(text, 1);
    lexer.lex();
    lexer.into_tokens()
}

fn expand_error(body: &str) -> HtmlError {
    let source = format!("{{{}}}", body);
    match expand_html(&source, 1) {
        Ok(code) => panic!("expected an error, got {:?}", code),
        Err(e) => e,
    }
}

#[test]
fn quotes_plain_markup_is_one_push() {
    let code = html_quotes("<p>hi</p>", 1).unwrap();
    assert_eq!(code, "__html_macro_content.push_str(\"<p>hi</p>\");\n");
}

#[test]
fn quotes_literal_escapes_quotes_and_newlines() {
    let code = html_quotes("<a href=\"x\">\n</a>", 1).unwrap();
    assert_eq!(code, "__html_macro_content.push_str(\"<a href=\\\"x\\\">\\n</a>\");\n");
}

#[test]
fn quotes_variable_is_escaped_code() {
    let code = html_quotes("$name", 1).unwrap();
    let expected = format!("let __html_variable = format!(\"{{}}\", name);\n{}", ESCAPE_BLOCK);
    assert_eq!(code, expected);
}

#[test]
fn quotes_variable_drops_trailing_punctuation() {
    let code = html_quotes("$name,", 1).unwrap();
    assert!(code.starts_with("let __html_variable = format!(\"{}\", name);\n"));
}

#[test]
fn quotes_expression_keeps_nested_parentheses() {
    let code = html_quotes("$(f(x) + (1))", 1).unwrap();
    assert!(code.starts_with("let __html_variable = format!(\"{}\", f(x) + (1));\n"));
}

#[test]
fn quotes_keeps_white_space_after_interpolation() {
    let code = html_quotes("$a b", 1).unwrap();
    assert!(code.ends_with("__html_macro_content.push_str(\" b\");\n"));
}

#[test]
fn quotes_unclosed_expression_is_an_error() {
    let e = html_quotes("x $(a b", 1).unwrap_err();
    assert_eq!(e.message, "Expecting full $()");
    assert_eq!(e.line, -1);
    assert_eq!(e.err_type, ErrType::VarExpr);
}

#[test]
fn quotes_variable_without_name_is_an_error() {
    let e = html_quotes("$,,", 1).unwrap_err();
    assert_eq!(e.message, "Not a valid variable name: \",,\".");
    assert_eq!(e.err_type, ErrType::VarSingleExpr);
}

#[test]
fn quotes_dollar_before_delimiter_is_markup() {
    let code = html_quotes("cost: $<", 1).unwrap();
    assert_eq!(code, "__html_macro_content.push_str(\"cost: $<\");\n");
}

#[test]
fn quotes_expression_may_start_with_a_parenthesis_or_a_quote() {
    let code = html_quotes("$((1 + 2) * 3)", 1).unwrap();
    assert_eq!(code, format!("let __html_variable = format!(\"{{}}\", (1 + 2) * 3);\n{}", ESCAPE_BLOCK));
    let code = html_quotes("<i>$(\"a\".len())</i>", 1).unwrap();
    assert!(code.contains("let __html_variable = format!(\"{}\", \"a\".len());\n"));
}

#[test]
fn quotes_empty_expression_is_markup() {
    let code = html_quotes("$() x", 1).unwrap();
    assert_eq!(code, "__html_macro_content.push_str(\"$() x\");\n");
}

#[test]
fn expand_starts_with_declaration() {
    let code = expand_html("{<p>a</p>}", 1).unwrap();
    assert_eq!(
        code,
        "let mut __html_macro_content = String::new();\n__html_macro_content.push_str(\"<p>a</p>\");\n"
    );
}

#[test]
fn expand_rust_code_is_copied() {
    let code = expand_html("{<rust>let x = 1;</rust>}", 1).unwrap();
    assert_eq!(code, "let mut __html_macro_content = String::new();\nlet x = 1;");
}

#[test]
fn expand_include_is_unescaped_push() {
    let code = expand_html("{ <include   header()   /> }", 1).unwrap();
    assert_eq!(
        code,
        "let mut __html_macro_content = String::new();\nlet __included_html = header();\n__html_macro_content.push_str(__included_html.as_str());\n"
    );
}

#[test]
fn include_outside_markup_is_an_error() {
    let e = expand_error("<rust>\n<include f() />\n</rust>");
    assert_eq!(e.err_type, ErrType::IncludeOutsideOfMarkup);
    assert_eq!(e.message, "Include tag outside of markup.");
    assert_eq!(e.line, 2);
}

#[test]
fn unmatched_rust_end_is_an_error() {
    let e = expand_error("<p></p></rust>");
    assert_eq!(e.err_type, ErrType::BadTag);
    assert_eq!(e.message, "</rust> tag seen but no starting <rust> tag found");
    assert_eq!(e.line, 1);
}

#[test]
fn include_without_end_slash_is_an_error() {
    let e = expand_error("<include f() >");
    assert_eq!(e.err_type, ErrType::NoIncludeEndSlash);
    assert_eq!(e.message, "No end slash for include tag found.");
    assert_eq!(e.hint, "<include example() />");
}

#[test]
fn include_at_the_very_end_is_an_error() {
    let e = expand_error("<include");
    assert_eq!(e.err_type, ErrType::NoIncludeEndSlash);
}

#[test]
fn empty_include_is_an_error() {
    let e = expand_error("<include  />");
    assert_eq!(e.err_type, ErrType::Other);
    assert_eq!(e.message, "Empty include expression.");
}

#[test]
fn invalid_include_is_an_error() {
    let e = expand_error("<include 1 + />");
    assert_eq!(e.err_type, ErrType::Other);
    assert_eq!(e.message, "Invalid include expression: 1 +");
}

#[test]
fn markup_error_comes_through_the_builder() {
    let e = expand_error("<p>$(open</p>");
    assert_eq!(e.err_type, ErrType::VarExpr);
}

#[test]
fn rust_tag_in_markup_is_never_text() {
    let code = expand_html("{a<rust>b</rust>c}", 1).unwrap();
    assert_eq!(
        code,
        "let mut __html_macro_content = String::new();\n__html_macro_content.push_str(\"a\");\nb__html_macro_content.push_str(\"c\");\n"
    );
}

#[test]
fn markup_start_only_counts_in_rust() {
    let code = expand_html("{<markup>x</markup>y}", 1).unwrap();
    assert_eq!(
        code,
        "let mut __html_macro_content = String::new();\n__html_macro_content.push_str(\"<markup>x\");\ny"
    );
    let code = expand_html("{<rust>a<markup>x</markup>b</rust>}", 1).unwrap();
    assert_eq!(
        code,
        "let mut __html_macro_content = String::new();\na__html_macro_content.push_str(\"x\");\nb"
    );
}

#[test]
fn builder_processes_lexed_tokens() {
    let mut builder = HtmlContentBuilder::new();
    builder.process_tokens_string(tokens("<b>$x</b>")).unwrap();
    let code = builder.rust_code();
    assert!(code.starts_with("let mut __html_macro_content = String::new();\n__html_macro_content.push_str(\"<b>\");\nlet __html_variable = format!(\"{}\", x);\n"));
    assert!(code.ends_with("__html_macro_content.push_str(\"</b>\");\n"));
}

#[test]
fn tag_tests() {
    let ts = tokens("<rust> </rust> <markup> <include x");
    assert!(is_tag_start("rust", &ts, 0));
    assert!(next_is_rust_start(&ts, 0));
    assert!(!next_is_rust_start(&ts, 1));
    assert!(is_tag_end("rust", &ts, 3));
    assert!(next_is_rust_end(&ts, 3));
    assert!(next_is_markup_start(&ts, 7));
    assert!(next_is_include_tag(&ts, 10));
    assert!(!next_is_include_tag(&ts, 11));
    assert!(peek(&ts, 10, 1).unwrap().value == "include");
    assert!(peek(&ts, 12, 1).is_none());
}

#[test]
fn compile_message_with_line_and_hint() {
    let e = HtmlError {
        message: "No end slash for include tag found.".to_string(),
        hint: "<include example() />".to_string(),
        line: 42,
        err_type: ErrType::NoIncludeEndSlash,
    };
    assert_eq!(
        e.compile_message(),
        "HTML macro error. Line: 42. No end slash for include tag found.\nHint: <include example() />\nType: NoIncludeEndSlash"
    );
}

#[test]
fn compile_message_without_line() {
    let e = HtmlError {
        message: "Expecting full $()".to_string(),
        hint: String::new(),
        line: -1,
        err_type: ErrType::VarExpr,
    };
    assert_eq!(e.compile_message(), "HTML macro error. Expecting full $()\nType: VarExpr");
}

#[test]
fn decimal_numbers() {
    assert_eq!(decimal_string(0), "0");
    assert_eq!(decimal_string(7), "7");
    assert_eq!(decimal_string(1200), "1200");
    assert_eq!(decimal_string(u64::MAX), u64::MAX.to_string());
}

#[test]
fn readme_example_escapes_the_tags() {
    let code = expand_html("{\n    <p>Hello $name</p>\n}", 1).unwrap();
    assert!(code.contains("__html_macro_content.push_str(\"\\n    <p>Hello \");\n"));
    assert!(code.contains("let __html_variable = format!(\"{}\", name);\n"));
    assert!(code.contains("'<' => __escaped.push_str(\"&lt;\")"));
    assert!(!code.contains("&#x2f;"));
}

#[test]
fn quotes_plain_markup_keeps_its_white_space() {
    let code = html_quotes("\n  <p>a   b</p>\t ", 1).unwrap();
    assert_eq!(code, "__html_macro_content.push_str(\"\\n  <p>a   b</p>\\t \");\n");
}

#[test]
fn quotes_non_ascii_markup_is_one_push() {
    let code = html_quotes("<p>Grüße – ok</p>", 1).unwrap();
    assert!(code.starts_with("__html_macro_content.push_str(\"<p>Gr"));
    assert!(code.ends_with("ok</p>\");\n"));
}

#[test]
fn quotes_literal_escapes_tabs_and_control_characters() {
    let code = html_quotes("a\tb\u{7f}c\\", 1).unwrap();
    assert_eq!(code, "__html_macro_content.push_str(\"a\\tb\\u{7f}c\\\\\");\n");
}

#[test]
fn tag_free_tokens_are_one_markup_run() {
    let text = "<div>\n  $name <markup> and $(a(b)) </div>";
    let mut builder = HtmlContentBuilder::new();
    builder.process_tokens_string(tokens(text)).unwrap();
    let expected = format!(
        "let mut __html_macro_content = String::new();\n{}",
        html_quotes(text, 1).unwrap()
    );
    assert_eq!(builder.rust_code(), expected);
}

#[test]
fn tag_free_tokens_fail_with_the_markup_error() {
    let mut builder = HtmlContentBuilder::new();
    let e = builder.process_tokens_string(tokens("<p>$(open</p>")).unwrap_err();
    assert_eq!(e.message, "Expecting full $()");
    assert_eq!(e.err_type, ErrType::VarExpr);
}

#[test]
fn include_statement_follows_the_check() {
    let code = include_statement("f(1)", true, 4).unwrap();
    assert_eq!(
        code,
        "let __included_html = f(1);\n__html_macro_content.push_str(__included_html.as_str());\n"
    );
    let refused = include_statement("f(1", false, 4).unwrap_err();
    assert_eq!(refused.message, "Invalid include expression: f(1");
    assert_eq!(refused.hint, "<include example() />");
    assert_eq!(refused.line, 4);
    assert_eq!(refused.err_type, ErrType::Other);
    let empty = include_statement("", true, 2).unwrap_err();
    assert_eq!(empty.message, "Empty include expression.");
    assert_eq!(empty.line, 2);
}

#[test]
fn include_expression_reads_to_the_end_slash() {
    let ts = tokens("<include  card(1, \"x\")  /> after");
    let (next, text) = include_expression(&ts, 0).unwrap();
    assert_eq!(text, "card(1, \"x\")");
    assert_eq!(ts[next].value, "after");
    let open = tokens("<include card(1) / x");
    assert!(include_expression(&open, 0).is_none());
    let blank = tokens("<include />");
    assert_eq!(include_expression(&blank, 0).unwrap(), (4, String::new()));
}

#[test]
fn variable_name_drops_trailing_punctuation() {
    assert_eq!(variable_name_of("name,"), "name");
    assert_eq!(variable_name_of("a_b_!?"), "a_b_");
    assert_eq!(variable_name_of("émile."), "émile");
    assert_eq!(variable_name_of(",;"), "");
    assert_eq!(variable_name_of(""), "");
}
