//! The command line tool: its arguments, and the text of its reports.

pub mod arguments;
pub mod json;
pub mod option_laws;
pub mod page_laws;
pub mod report;
