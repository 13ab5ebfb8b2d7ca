//! Markdown to token and HTML conversion, verified.
//!
//! - `mdparser`: the `MdParser` dialect and its tokens;
//! - `parser`: the `Parser` dialect and its tokens;
//! - `converter`: HTML for the tokens of `MdParser`;
//! - `patterns` and `inline_scan`: the line and inline patterns of the grammar;
//! - `spans`: ordering formatted spans and reading the text around them;
//! - `text`: characters, lines and strings.
pub mod text;
pub mod patterns;
pub mod inline_scan;
pub mod spans;
pub mod mdparser;
pub mod parser;
pub mod converter;
