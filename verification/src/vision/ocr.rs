//! OCR options and positioned OCR results.

use crate::single::Single;
use crate::vision::render::{RenderOptions, RenderedPage};
use vstd::prelude::*;

verus! {

/// When pages go through OCR.
#[derive(Clone, Copy, Debug, PartialEq, Eq, Structural)]
pub enum OcrMode {
    /// Never.
    Off,
    /// Pages whose native text is missing or unusable.
    Auto,
    /// Every selected page.
    Force,
}

/// Whether missing model files may be fetched.
#[derive(Clone, Copy, Debug, PartialEq, Eq, Structural)]
pub enum ModelDownloadPolicy {
    /// Missing files are downloaded.
    IfMissing,
    /// Missing files are an error.
    Offline,
}

/// Options of one OCR request. OCR is off unless a mode is set.
#[derive(Debug)]
pub struct OcrOptions {
    pub mode: OcrMode,
    /// Spans below this confidence are dropped.
    pub minimum_confidence: Single,
    /// A directory with the model files, in place of the managed cache.
    pub model_directory: Option<String>,
    pub model_downloads: ModelDownloadPolicy,
}

impl OcrOptions {
    /// OCR switched off, with every confidence accepted.
    pub fn new() -> (r: Self)
        ensures
            r.mode == OcrMode::Off,
            r.minimum_confidence == (Single { bits: 0 }),
            r.model_directory is None,
            r.model_downloads == ModelDownloadPolicy::IfMissing,
    {
        OcrOptions {
            mode: OcrMode::Off,
            minimum_confidence: Single::zero(),
            model_directory: None,
            model_downloads: ModelDownloadPolicy::IfMissing,
        }
    }

    pub fn mode(self, mode: OcrMode) -> (r: Self)
        ensures
            r == (OcrOptions { mode, ..self }),
    {
        OcrOptions { mode, ..self }
    }

    pub fn minimum_confidence(self, minimum_confidence: Single) -> (r: Self)
        ensures
            r == (OcrOptions { minimum_confidence, ..self }),
    {
        OcrOptions { minimum_confidence, ..self }
    }

    pub fn model_directory(self, directory: String) -> (r: Self)
        ensures
            r == (OcrOptions { model_directory: Some(directory), ..self }),
    {
        OcrOptions { model_directory: Some(directory), ..self }
    }

    pub fn model_downloads(self, model_downloads: ModelDownloadPolicy) -> (r: Self)
        ensures
            r == (OcrOptions { model_downloads, ..self }),
    {
        OcrOptions { model_downloads, ..self }
    }
}

/// A point of a bitmap, measured in pixels from the top-left.
#[derive(Clone, Copy, Debug, PartialEq, Eq, Structural)]
pub struct ImagePoint {
    pub x: Single,
    pub y: Single,
}

impl ImagePoint {
    pub fn new(x: Single, y: Single) -> (r: Self)
        ensures
            r == (ImagePoint { x, y }),
    {
        ImagePoint { x, y }
    }
}

/// Four corners in order round the region.
#[derive(Clone, Copy, Debug)]
pub struct ImageQuad {
    pub points: [ImagePoint; 4],
}

impl ImageQuad {
    pub fn new(points: [ImagePoint; 4]) -> (r: Self)
        ensures
            r.points == points,
    {
        ImageQuad { points }
    }
}

/// The model set that produced a result.
#[derive(Debug)]
pub struct ModelIdentity {
    pub name: String,
    pub revision: String,
}

impl ModelIdentity {
    pub fn new(name: &str, revision: &str) -> (r: Self)
        ensures
            r.name@ == name@,
            r.revision@ == revision@,
    {
        ModelIdentity { name: name.to_string(), revision: revision.to_string() }
    }

    /// Another value with the same name and revision.
    pub fn copied(&self) -> (r: Self)
        ensures
            r.name@ == self.name@,
            r.revision@ == self.revision@,
    {
        ModelIdentity { name: self.name.clone(), revision: self.revision.clone() }
    }
}

/// One recognized region of a bitmap.
#[derive(Debug)]
pub struct OcrSpan {
    pub text: String,
    pub polygon: ImageQuad,
    /// From 0 to 1.
    pub confidence: Single,
    pub orientation_degrees: Option<Single>,
}

/// The OCR result of one page.
#[derive(Debug)]
pub struct OcrPage {
    /// 1-indexed.
    pub page_number: u32,
    pub spans: Vec<OcrSpan>,
    pub mean_confidence: Option<Single>,
    pub model: ModelIdentity,
    pub processing_time_ms: u64,
    pub warnings: Vec<String>,
}

/// Turns PDF pages into bitmaps. A failure is reported by its message.
pub trait PageRenderer {
    fn render_pages(
        &self,
        pdf_bytes: &Vec<u8>,
        pages: &Vec<u32>,
        password: Option<&str>,
        options: &RenderOptions,
    ) -> Result<Vec<RenderedPage>, String>;
}

/// Recognizes the text of bitmaps. A failure is reported by its message.
pub trait OcrEngine {
    fn recognize(&self, pages: &Vec<RenderedPage>, options: &OcrOptions) -> Result<Vec<OcrPage>, String>;
}

} // verus!
