//! Structured errors of the tokenizer. Every failure is fatal for the whole
//! call and carries the offending text for diagnostics.
use vstd::prelude::*;

verus! {

/// Why a tokenization or a single-tag check failed.
#[derive(Debug, Clone, PartialEq, Eq)]
pub enum HtmlError {
    /// More than one `/` outside quotes in a tag.
    MalformedTagSlashCount { tag: String },
    /// Unterminated or mismatched quoting inside a tag.
    MalformedTagQuoting { tag: String },
    /// Tag too short, missing `<`/`>` delimiters, or no extractable name.
    InvalidTagShape { tag: String },
    /// Classification produced a text token where only a tag token is valid.
    InternalInvariantViolation { detail: String },
    /// End of input reached inside a raw-text element with no matching
    /// close tag.
    UnterminatedRawText { tag_name: String },
}

/// Mathematical model of an `HtmlError`: the same variants over character
/// sequences.
pub enum ErrorModel {
    MalformedTagSlashCount { tag: Seq<char> },
    MalformedTagQuoting { tag: Seq<char> },
    InvalidTagShape { tag: Seq<char> },
    InternalInvariantViolation { detail: Seq<char> },
    UnterminatedRawText { tag_name: Seq<char> },
}

impl View for HtmlError {
    type V = ErrorModel;

    open spec fn view(&self) -> ErrorModel {
        match self {
            HtmlError::MalformedTagSlashCount { tag } => ErrorModel::MalformedTagSlashCount {
                tag: tag@,
            },
            HtmlError::MalformedTagQuoting { tag } => ErrorModel::MalformedTagQuoting {
                tag: tag@,
            },
            HtmlError::InvalidTagShape { tag } => ErrorModel::InvalidTagShape { tag: tag@ },
            HtmlError::InternalInvariantViolation { detail } => ErrorModel::InternalInvariantViolation {
                detail: detail@,
            },
            HtmlError::UnterminatedRawText { tag_name } => ErrorModel::UnterminatedRawText {
                tag_name: tag_name@,
            },
        }
    }
}

} // verus!
