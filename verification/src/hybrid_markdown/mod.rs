//! Preparation and OCR completion for document-level Markdown conversion.
//!
//! A document is detected and extracted once, OCR pages are requested as
//! positioned tokens, and one final Markdown pass assembles native and OCR
//! text together.

pub mod agreement;
pub mod document;
pub mod error;
pub mod laws;
pub mod placement;
pub mod preparation_laws;
pub mod prepare;
pub mod reasons;
pub mod session;
pub mod session_laws;
pub mod tokens;
