//! The result of processing a document with OCR.

use crate::hybrid_markdown::reasons::PageOcrReasons;
use crate::single::Single;
use crate::vision::ocr::ModelIdentity;
use vstd::prelude::*;

verus! {

/// Where the text of a page came from.
#[derive(Clone, Copy, Debug, PartialEq, Eq, Structural)]
pub enum PageContentSource {
    Native,
    Ocr,
    Fused,
}

/// Wall times of the stages of one page.
#[derive(Clone, Copy, Debug, PartialEq, Eq, Structural)]
pub struct PageTimings {
    pub render_ms: u64,
    pub ocr_ms: u64,
    pub assembly_ms: u64,
}

/// How the text of a page came about.
#[derive(Debug)]
pub struct PageProvenance {
    /// 1-indexed page number.
    pub page_number: u32,
    pub source: PageContentSource,
    pub ocr_model: Option<ModelIdentity>,
    pub render_dpi: Option<Single>,
    pub ocr_confidence: Option<Single>,
    pub hosted_recommended: bool,
    pub timings: PageTimings,
    pub warnings: Vec<String>,
}

/// The text of one page.
#[derive(Debug)]
pub struct OcrPdfPage {
    pub markdown: String,
    pub provenance: PageProvenance,
}

/// The text of a document, with what is known of its pages.
#[derive(Debug)]
pub struct OcrPdfResult {
    pub markdown: String,
    pub page_count: u32,
    pub pages: Vec<OcrPdfPage>,
    pub pages_recommended_for_ocr: Vec<u32>,
    pub pages_routed_to_ocr: Vec<u32>,
    pub pages_recommending_hosted: Vec<u32>,
    pub ocr_reasons_by_page: Vec<PageOcrReasons>,
    pub is_complex: bool,
    pub pages_with_tables: Vec<u32>,
    pub pages_with_columns: Vec<u32>,
    pub processing_time_ms: u64,
    pub render_time_ms: u64,
    pub ocr_time_ms: u64,
}

} // verus!
