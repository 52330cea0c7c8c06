//! What preparation works on, and what the rest of the pipeline is asked for.

use crate::extractor::page_box::{visible_page_box, PageBox};
use crate::hybrid_markdown::error::PdfFailure;
use crate::hybrid_markdown::reasons::PageOcrReasons;
use crate::markdown::preprocess::RoleEntry;
use crate::markdown::MarkdownOptions;
use crate::single::{Single, ONE_BITS};
use crate::types::{LayoutComplexity, PdfLine, PdfRect, TextItem};
use vstd::prelude::*;

verus! {

/// `612.0`: the width of US Letter paper in points.
pub const LETTER_WIDTH_BITS: u32 = 0x4419_0000;

/// `792.0`: the height of US Letter paper in points.
pub const LETTER_HEIGHT_BITS: u32 = 0x4446_0000;

/// What kind of pages a document is made of.
#[derive(Clone, Copy, Debug, PartialEq, Eq, Structural)]
pub enum PdfType {
    TextBased,
    Scanned,
    ImageBased,
    Mixed,
}

/// How far a document is processed.
#[derive(Clone, Copy, Debug, PartialEq, Eq, Structural)]
pub enum ProcessMode {
    /// Only the type of the document.
    DetectOnly,
    /// Type, text and layout, without Markdown.
    Analyze,
    /// Everything.
    Full,
}

/// Which pages detection looks at.
#[derive(Debug)]
pub enum ScanStrategy {
    /// The pages from the first on, until one shows that the document is not
    /// purely text.
    EarlyExit,
    /// Every page.
    Full,
    /// So many pages, spread over the document.
    Sample(u32),
    /// These pages, 1-indexed.
    Pages(Vec<u32>),
}

/// How the type of a document is detected.
#[derive(Debug)]
pub struct DetectionConfig {
    pub strategy: ScanStrategy,
    /// The text operators that make a page one with text.
    pub min_text_ops_per_page: u32,
    /// The part of the pages that must have text in a document of text.
    pub text_page_ratio_threshold: Single,
}

/// What the caller asks for.
#[derive(Debug)]
pub struct PdfOptions {
    pub mode: ProcessMode,
    pub detection: DetectionConfig,
    /// 1-indexed pages to process; all of them without a filter.
    pub page_filter: Option<Vec<u32>>,
    pub markdown: MarkdownOptions,
    /// The most bytes that a stream of the document may decompress to.
    pub max_decompressed_size: Option<usize>,
    /// The password that the document is opened with. A document that is
    /// loaded already needs none.
    pub password: Option<String>,
}

/// The visible area of a page in PDF points.
#[derive(Clone, Copy, Debug, PartialEq, Eq, Structural)]
pub struct PageArea {
    pub x: Single,
    pub y: Single,
    pub width: Single,
    pub height: Single,
}

/// The area that stands for a page without one.
pub open spec fn letter_area() -> PageArea {
    PageArea {
        x: Single { bits: 0 },
        y: Single { bits: 0 },
        width: Single { bits: LETTER_WIDTH_BITS },
        height: Single { bits: LETTER_HEIGHT_BITS },
    }
}

impl PageArea {
    pub fn fallback() -> (r: PageArea)
        ensures
            r == letter_area(),
    {
        PageArea {
            x: Single::zero(),
            y: Single::zero(),
            width: Single { bits: LETTER_WIDTH_BITS },
            height: Single { bits: LETTER_HEIGHT_BITS },
        }
    }
}

/// The area of a page box: at least one point wide and high.
pub open spec fn area_of(page_box: Option<PageBox>) -> PageArea {
    match page_box {
        Some(b) => PageArea {
            x: b.x0,
            y: b.y0,
            width: b.x1.spec_minus(b.x0).spec_max(Single { bits: ONE_BITS }),
            height: b.y1.spec_minus(b.y0).spec_max(Single { bits: ONE_BITS }),
        },
        None => PageArea {
            x: Single { bits: 0 },
            y: Single { bits: 0 },
            width: (Single { bits: LETTER_WIDTH_BITS }).spec_minus(Single { bits: 0 }).spec_max(
                Single { bits: ONE_BITS },
            ),
            height: (Single { bits: LETTER_HEIGHT_BITS }).spec_minus(Single { bits: 0 }).spec_max(
                Single { bits: ONE_BITS },
            ),
        },
    }
}

/// The pages of a document, in order.
pub uninterp spec fn document_pages(doc: lopdf::Document) -> Seq<(u32, u16)>;

/// `lopdf::Document::page_iter`: the object of each page, in page order.
#[verifier::external_body]
fn pages_of(doc: &lopdf::Document) -> (r: Vec<(u32, u16)>)
    ensures
        r@ == document_pages(*doc),
{
    let mut pages = Vec::new();
    for page in doc.page_iter() {
        pages.push(page);
    }
    pages
}

/// The number of pages of a document, as far as it fits.
pub open spec fn counted_pages(doc: lopdf::Document) -> u32 {
    (document_pages(doc).len() % 0x1_0000_0000) as u32
}

/// The number of pages of a document.
pub fn page_count(doc: &lopdf::Document) -> (r: u32)
    ensures
        r == counted_pages(*doc),
{
    let pages: u64 = pages_of(doc).len() as u64;
    (pages % 0x1_0000_0000) as u32
}

/// The visible box of a page of the document.
pub open spec fn box_of_page(doc: lopdf::Document, id: (u32, u16)) -> Option<PageBox> {
    crate::extractor::page_box::visible_of(
        crate::extractor::page_box::inherited_box(
            crate::pdf::document_objects(doc),
            id,
            "MediaBox"@,
            crate::extractor::page_box::MAX_ANCESTORS as nat,
        ),
        crate::extractor::page_box::inherited_box(
            crate::pdf::document_objects(doc),
            id,
            "CropBox"@,
            crate::extractor::page_box::MAX_ANCESTORS as nat,
        ),
    )
}

/// The visible areas of the pages of a document, in page order.
pub fn collect_page_boxes(doc: &lopdf::Document) -> (r: Vec<PageArea>)
    ensures
        r@.len() == document_pages(*doc).len(),
        forall|i: int| 0 <= i < r@.len() ==> #[trigger] r@[i] == area_of(box_of_page(*doc, document_pages(*doc)[i])),
{
    let pages = pages_of(doc);
    let mut areas: Vec<PageArea> = Vec::new();
    let mut i: usize = 0;
    while i < pages.len()
        invariant
            i <= pages@.len(),
            pages@ == document_pages(*doc),
            areas@.len() == i,
            forall|k: int| 0 <= k < i ==> #[trigger] areas@[k] == area_of(box_of_page(*doc, document_pages(*doc)[k])),
        decreases pages@.len() - i,
    {
        let area = match visible_page_box(doc, pages[i]) {
            Some(b) => PageArea {
                x: b.x0,
                y: b.y0,
                width: b.x1.minus(b.x0).max(Single::one()),
                height: b.y1.minus(b.y0).max(Single::one()),
            },
            None => PageArea {
                x: Single::zero(),
                y: Single::zero(),
                width: Single { bits: LETTER_WIDTH_BITS }.minus(Single::zero()).max(Single::one()),
                height: Single { bits: LETTER_HEIGHT_BITS }.minus(Single::zero()).max(Single::one()),
            },
        };
        areas.push(area);
        i += 1;
    }
    areas
}

/// What the type detector found out about a document.
#[derive(Debug)]
pub struct Detection {
    pub pdf_type: PdfType,
    pub pages_needing_ocr: Vec<u32>,
    pub ocr_reasons_by_page: Vec<PageOcrReasons>,
    pub title: Option<String>,
    pub confidence: Single,
}

/// The positioned text and drawings of a document.
#[derive(Debug)]
pub struct Extraction {
    pub items: Vec<TextItem>,
    pub rects: Vec<PdfRect>,
    pub lines: Vec<PdfLine>,
    pub page_thresholds: Vec<(u32, Single)>,
    /// Pages whose fonts map glyphs to no text.
    pub gid_encoded_pages: Vec<u32>,
}

/// A cell of a table of the structure tree.
#[derive(Debug)]
pub struct StructCell {
    pub is_header: bool,
    /// The marked content of the cell: pages, and identifiers on them.
    pub content: Vec<(u32, i64)>,
}

/// A table of the structure tree.
#[derive(Debug)]
pub struct StructTable {
    pub rows: Vec<Vec<StructCell>>,
}

/// What the Markdown pass works with, besides the items.
#[derive(Debug)]
pub struct RenderContext {
    pub page_count: u32,
    pub page_filter: Option<Vec<u32>>,
    pub markdown_options: MarkdownOptions,
    pub rects: Vec<PdfRect>,
    pub lines: Vec<PdfLine>,
    pub page_thresholds: Vec<(u32, Single)>,
    pub struct_roles: Vec<RoleEntry>,
    pub struct_tables: Vec<StructTable>,
}

/// What the Markdown pass found.
#[derive(Debug)]
pub struct Assembly {
    /// The Markdown, where it was asked for.
    pub markdown: Option<String>,
    /// The Markdown shows signs of a broken encoding.
    pub markdown_has_encoding_issues: bool,
    pub layout: LayoutComplexity,
    /// Pages whose text is of too low a quality.
    pub text_quality_pages: Vec<u32>,
    pub text_quality_reasons: Vec<PageOcrReasons>,
    pub text_quality_issues: bool,
}

/// The parts of the pipeline that preparation builds on: detection, text
/// extraction and the Markdown pass.
pub trait MarkdownBackend {
    /// Detects the type of the document. No stream may decompress to more than
    /// the given size.
    fn detect(
        &self,
        document: &lopdf::Document,
        page_count: u32,
        config: &DetectionConfig,
        max_decompressed_size: Option<usize>,
    ) -> Result<Detection, PdfFailure>;

    /// Extracts the positioned text, on request with the invisible text. No
    /// stream may decompress to more than the given size.
    fn extract(
        &self,
        document: &lopdf::Document,
        page_filter: &Option<Vec<u32>>,
        max_decompressed_size: Option<usize>,
        include_invisible: bool,
    ) -> Result<Extraction, PdfFailure>;

    /// The roles that the structure tree gives marked content.
    fn struct_roles(&self, document: &lopdf::Document) -> Vec<RoleEntry>;

    /// The tables of the structure tree.
    fn struct_tables(&self, document: &lopdf::Document) -> Vec<StructTable>;

    /// Whether a text is garbage rather than language.
    fn is_garbage_text(&self, text: &String) -> bool;

    /// The Markdown pass over positioned text.
    fn assemble(&self, items: Vec<TextItem>, context: &RenderContext, emit_markdown: bool) -> Assembly;
}

} // verus!
