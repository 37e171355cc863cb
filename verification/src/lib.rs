//! Compile-time expansion of declarative HTML templates.
//!
//! The body of an `html!` template is lexed into tokens, the tokens are
//! split into markup, Rust code and include directives, and the library
//! writes the Rust statements that build the HTML string.

pub mod text;
pub mod htmllexer;
pub mod outside;
pub mod htmlquotes;
pub mod htmlcontentbuilder;
pub mod markuptext;
pub mod expand;
