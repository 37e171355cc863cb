# kaja_html_macro

The library behind an `html!` template macro: a template's text is lexed
into tokens, its markup, Rust code and `<include f() />` directives are
told apart, and the library writes the Rust statements that build the HTML
string, with `$name` and `$(expression)` formatted and escaped.

- `src/htmllexer.rs`: the lexer and its laws (the tokens give back the text;
  they are well formed; whitespace between tokens goes to the earlier one;
  lexing again from where it stopped adds nothing).
- `src/htmlquotes.rs`: the code for a run of markup (`html_quotes`).
- `src/htmlcontentbuilder.rs`: the content builder that splits markup from
  Rust code and includes (`process_tokens_string`), and template errors.
- `src/markuptext.rs`: laws on markup text: with lexed tokens it never ends
  in, nor holds, a `<rust>` or `</rust>` tag; tokens without tags or
  includes are one run of markup.
- `src/expand.rs`: the whole expansion of one template (`expand_html`).
- `src/text.rs`, `src/outside.rs`: character classes, small string
  operations, and the calls into std, `proc_macro2` and `syn`. Whether an
  include's text is a Rust expression is syn's answer, which the library
  does not model: the builder's contracts hold for the answers syn gave.
- `app/lib.rs`: the macro entry, which reads the template from the macro
  input and reports errors to the compiler.
