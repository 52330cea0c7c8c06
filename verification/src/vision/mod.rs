//! Page bitmaps, OCR routing and OCR results.

pub mod detection;
pub mod download;
pub mod image_analysis;
pub mod oar;
pub mod ocr;
pub mod picture_laws;
pub mod region_laws;
pub mod regions;
pub mod render;
pub mod result;
pub mod route_laws;
pub mod routing;
