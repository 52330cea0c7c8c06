//! PDF inspection: text geometry, Markdown clean-up and OCR routing.
//!
//! Every function states in its contract what it returns, and the contract is
//! proved. Single-precision numbers are held by their bit pattern (`single`), so
//! that their order, signs and limits can be reasoned about exactly.

pub mod cli;
pub mod double;
pub mod double_laws;
pub mod extractor;
pub mod fractions;
pub mod hybrid_markdown;
pub mod ieee;
pub mod line_laws;
pub mod lines;
pub mod markdown;
pub mod number_laws;
pub mod numbers;
pub mod patterns;
pub mod pdf;
pub mod single;
pub mod sorting;
pub mod table;
pub mod text;
pub mod text_utils;
pub mod types;
pub mod unicode;
pub mod vision;
