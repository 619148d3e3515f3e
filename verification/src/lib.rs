//! A lossless tokenizer for HTML-like text: it turns an input string into
//! an ordered sequence of typed tokens (tag open/close, self-closing tag,
//! raw-text open/close, inner text, whitespace), with quote-aware tag
//! scanning and opaque raw-text elements.

pub mod cursor;
pub mod dom;
pub mod error;
pub mod html_utils;
pub mod tokenizer;

pub use crate::dom::dom_tree_from_html;
pub use crate::dom::DomNode;
pub use crate::error::HtmlError;
pub use crate::html_utils::html_tag_name;
pub use crate::html_utils::validate_token_html_backslash_count;
pub use crate::html_utils::validate_token_html_quotes;
pub use crate::tokenizer::html_tokenize;
pub use crate::tokenizer::new_token_html_from_tag;
pub use crate::tokenizer::TokenHtml;
