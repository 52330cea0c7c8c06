//! What can go wrong in a session.

use crate::numbers::{decimal, push_decimal};
use crate::text::{push_text, text_of};
use vstd::prelude::*;

verus! {

/// A document that could not be read.
#[derive(Debug)]
pub struct PdfFailure {
    pub message: String,
    /// A stream would have grown beyond the limit that was set.
    pub is_decompression_limit: bool,
}

/// Errors caused by the document, by invalid OCR session use or by token
/// geometry.
#[derive(Debug)]
pub enum HybridMarkdownError {
    Pdf(PdfFailure),
    UnrequestedPage { page: u32 },
    DuplicatePage { page: u32 },
    MissingPage { page: u32 },
    SessionFinished,
    InvalidToken { page: u32, reason: String },
    StatePoisoned,
}

impl HybridMarkdownError {
    /// The text of the error.
    pub open spec fn spec_message(self) -> Seq<char> {
        match self {
            HybridMarkdownError::Pdf(failure) => failure.message@,
            HybridMarkdownError::UnrequestedPage { page } => "OCR page "@ + decimal(page as nat)
                + " was not requested"@,
            HybridMarkdownError::DuplicatePage { page } => "OCR page "@ + decimal(page as nat)
                + " was submitted more than once"@,
            HybridMarkdownError::MissingPage { page } => "OCR page "@ + decimal(page as nat) + " is missing"@,
            HybridMarkdownError::SessionFinished => "hybrid Markdown session is already finished"@,
            HybridMarkdownError::InvalidToken { page, reason } => "OCR token on page "@ + decimal(page as nat)
                + " is invalid: "@ + reason@,
            HybridMarkdownError::StatePoisoned => "hybrid Markdown session state is poisoned"@,
        }
    }

    pub fn message(&self) -> (r: String)
        ensures
            r@ == self.spec_message(),
    {
        let mut out: Vec<char> = Vec::new();
        match self {
            HybridMarkdownError::Pdf(failure) => {
                push_text(&mut out, failure.message.as_str());
            },
            HybridMarkdownError::UnrequestedPage { page } => {
                push_text(&mut out, "OCR page ");
                push_decimal(&mut out, *page as u128);
                push_text(&mut out, " was not requested");
            },
            HybridMarkdownError::DuplicatePage { page } => {
                push_text(&mut out, "OCR page ");
                push_decimal(&mut out, *page as u128);
                push_text(&mut out, " was submitted more than once");
            },
            HybridMarkdownError::MissingPage { page } => {
                push_text(&mut out, "OCR page ");
                push_decimal(&mut out, *page as u128);
                push_text(&mut out, " is missing");
            },
            HybridMarkdownError::SessionFinished => {
                push_text(&mut out, "hybrid Markdown session is already finished");
            },
            HybridMarkdownError::InvalidToken { page, reason } => {
                push_text(&mut out, "OCR token on page ");
                push_decimal(&mut out, *page as u128);
                push_text(&mut out, " is invalid: ");
                push_text(&mut out, reason.as_str());
            },
            HybridMarkdownError::StatePoisoned => {
                push_text(&mut out, "hybrid Markdown session state is poisoned");
            },
        }
        assert(out@ =~= self.spec_message());
        text_of(&out)
    }
}

} // verus!
