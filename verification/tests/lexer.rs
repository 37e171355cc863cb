use kaja_html_macro::htmllexer::{HtmlDynamicLexer, TokenType};

#[test]
fn test_variable_substitution() {
    let text = "<h1>Hello $some_variable $(some_other_expression). $&some_ref. $(&some_struct.member). Tab tab:\t\t      and      \t\t</h1>";

    let mut lexer = HtmlDynamicLexer::new(text, 1);
    lexer.lex();

    let num_tokens = lexer.tokens.len();
    let joined = lexer.join();

    println!("Num tokens {}", num_tokens);
    println!("To lex: {:?}", &text);
    println!("joined: {:?}", joined);

    assert!(joined == text)
}

#[test]
fn lexer_token_kinds_and_values() {
    let mut lexer = HtmlDynamicLexer::new("<p class=\"x\">$(a.b)</p>", 7);
    lexer.lex();
    let kinds: Vec<TokenType> = lexer.tokens.iter().map(|t| t.token_type).collect();
    assert_eq!(
        kinds,
        vec![
            TokenType::StartTag,
            TokenType::OtherText,
            TokenType::OtherText,
            TokenType::Quote,
            TokenType::OtherText,
            TokenType::Quote,
            TokenType::EndTag,
            TokenType::Dollar,
            TokenType::StartParen,
            TokenType::OtherText,
            TokenType::Period,
            TokenType::OtherText,
            TokenType::EndParen,
            TokenType::StartTag,
            TokenType::Slash,
            TokenType::OtherText,
            TokenType::EndTag,
        ]
    );
    let values: Vec<&str> = lexer.tokens.iter().map(|t| t.value.as_str()).collect();
    assert_eq!(values[1], "p");
    assert_eq!(lexer.tokens[1].white_space_after, " ");
    assert_eq!(values[2], "class=");
    assert!(lexer.tokens.iter().all(|t| t.line_number == 7));
}

#[test]
fn lexer_counts_lines_after_each_token() {
    let mut lexer = HtmlDynamicLexer::new("a\nb\n\n c", 10);
    lexer.lex();
    let lines: Vec<isize> = lexer.tokens.iter().map(|t| t.line_number).collect();
    assert_eq!(lines, vec![11, 13, 13]);
    assert_eq!(lexer.tokens[1].white_space_after, "\n\n ");
}

#[test]
fn lexer_keeps_nothing_of_white_space_only_text() {
    let mut lexer = HtmlDynamicLexer::new(" \n\t ", 1);
    lexer.lex();
    assert_eq!(lexer.tokens.len(), 0);
    assert_eq!(lexer.join(), "");
}

#[test]
fn lexer_stops_at_nul_where_a_token_would_start() {
    let mut lexer = HtmlDynamicLexer::new("<a> \0 rest", 1);
    lexer.lex();
    assert_eq!(lexer.tokens.len(), 3);
    assert_eq!(lexer.join(), "<a> ");
}

#[test]
fn lexer_round_trip_on_unicode_and_white_space() {
    let text = " \u{a0}Grüße\u{2003}<b>\r\n\tok</b> ";
    let mut lexer = HtmlDynamicLexer::new(text, 1);
    lexer.lex();
    assert_eq!(lexer.join(), text);
    assert_eq!(lexer.tokens[0].white_space_before, " \u{a0}");
    assert_eq!(lexer.tokens[0].value, "Grüße");
}

#[test]
fn lexer_other_text_and_delimiters() {
    assert!(HtmlDynamicLexer::is_other_text('a'));
    assert!(HtmlDynamicLexer::is_other_text(' '));
    assert!(!HtmlDynamicLexer::is_other_text('$'));
    assert!(!HtmlDynamicLexer::is_other_text('.'));
}

#[test]
fn token_text_and_duplicate() {
    let mut lexer = HtmlDynamicLexer::new("  word  <", 1);
    lexer.lex();
    assert_eq!(lexer.tokens[0].to_text(), "  word  ");
    let copy = lexer.tokens[0].duplicate();
    assert_eq!(copy.value, "word");
    assert_eq!(copy.token_type, TokenType::OtherText);
}

#[test]
fn only_the_first_token_has_white_space_before() {
    let mut lexer = HtmlDynamicLexer::new(" \t<p>  a \n b</p>\n", 1);
    lexer.lex();
    assert_eq!(lexer.tokens[0].white_space_before, " \t");
    assert!(lexer.tokens.iter().skip(1).all(|t| t.white_space_before.is_empty()));
    assert_eq!(lexer.tokens[3].value, "a");
    assert_eq!(lexer.tokens[3].white_space_after, " \n ");
    assert_eq!(lexer.tokens.last().unwrap().white_space_after, "\n");
}

#[test]
fn lexing_again_adds_nothing() {
    let mut lexer = HtmlDynamicLexer::new("<p>x</p>  ", 3);
    lexer.lex();
    let first: Vec<String> = lexer.tokens.iter().map(|t| t.value.clone()).collect();
    lexer.lex();
    let second: Vec<String> = lexer.tokens.iter().map(|t| t.value.clone()).collect();
    assert_eq!(first, vec!["<", "p", ">", "x", "<", "/", "p", ">"]);
    assert_eq!(second, first);
}

#[test]
fn lexing_stops_at_nul_for_good() {
    let mut lexer = HtmlDynamicLexer::new("a b \0c d", 1);
    lexer.lex();
    assert_eq!(lexer.tokens.len(), 2);
    lexer.lex();
    assert_eq!(lexer.tokens.len(), 2);
    assert_eq!(lexer.tokens[1].value, "b");
}
