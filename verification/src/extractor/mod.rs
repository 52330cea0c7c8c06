//! Extraction of text and geometry from page content.

pub mod array_laws;
pub mod box_laws;
pub mod clip_boundaries;
pub mod clip_laws;
pub mod form_extract;
pub mod form_fonts;
pub mod form_laws;
pub mod form_run;
pub mod form_text;
pub mod form_walk;
pub mod page_box;
pub mod script_laws;
pub mod scripts;
pub mod show_laws;
pub mod text_moves;
pub mod text_paint;
pub mod xobjects;
