#![verifier::loop_isolation(false)]
//! Approximate, dependency-free HTML and CSS parsing.
//!
//! Two independent pipelines, each a character-level tokenizer feeding a
//! token-level parser: CSS text becomes an ordered list of style rules
//! (selector trees plus declaration maps), HTML text becomes an ordered
//! list of tree nodes (elements, text runs, comments).  Malformed input
//! never raises an error: every construct degrades to a best-effort token
//! or node, or is skipped.
//!
//! Each tokenizer is specified by a spec function naming the token found
//! at a position ([`css_tokenizer::css_token_at`],
//! [`html_tokenizer::html_token_at`]), each parser by a recursive descent
//! over the resulting token sequence ([`css_parser::css_parse_s`],
//! [`html_parser::parse_top_s`]); `next_token` and `parse` are proved to
//! return exactly what these name, on every input, and to terminate
//! without panicking.  Tokens claim exactly the spans they were read
//! from: see [`css_tokenizer::lemma_css_token_round_trip`] and
//! [`html_tokenizer::lemma_html_token_round_trip`].

pub mod css_parser;
pub mod css_tokenizer;
pub mod html_parser;
pub mod html_tokenizer;
pub mod strmap;
pub mod text;

pub use css_parser::Rule;
pub use css_parser::Selector;
pub use css_parser::CssParser;
pub use css_tokenizer::CssToken;
pub use css_tokenizer::CssTokenizer;
pub use html_parser::Element;
pub use html_parser::HtmlParser;
pub use html_parser::Node;
pub use html_tokenizer::HtmlToken;
pub use html_tokenizer::HtmlTokenizer;
pub use strmap::StrMap;
