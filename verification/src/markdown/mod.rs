//! Markdown assembly and clean-up.

use vstd::prelude::*;

pub mod cleaning;
pub mod edge_laws;
pub mod edges;
pub mod furniture;
pub mod heading_laws;
pub mod hyphen_laws;
pub mod links;
pub mod margins;
pub mod postprocess;
pub mod preprocess;
pub mod stranded;
pub mod tidy;
pub mod urls;
pub mod word_laws;
pub mod words;

verus! {

/// How closely the output follows the source text.
#[derive(Clone, Copy, Debug, PartialEq, Eq, Structural)]
pub enum MarkdownProfile {
    /// Source text is kept.
    Fidelity,
    /// Tokens are saved where that changes source text.
    Compact,
}

/// What the clean-up of Markdown does.
#[derive(Clone, Copy, Debug, PartialEq, Eq, Structural)]
pub struct MarkdownOptions {
    pub profile: MarkdownProfile,
    pub fix_hyphenation: bool,
    pub remove_page_numbers: bool,
    pub format_urls: bool,
    /// Page markers are kept in the output.
    pub include_page_numbers: bool,
}

impl Default for MarkdownOptions {
    fn default() -> (r: MarkdownOptions)
        ensures
            r == (MarkdownOptions {
                profile: MarkdownProfile::Fidelity,
                fix_hyphenation: true,
                remove_page_numbers: true,
                format_urls: true,
                include_page_numbers: false,
            }),
    {
        MarkdownOptions {
            profile: MarkdownProfile::Fidelity,
            fix_hyphenation: true,
            remove_page_numbers: true,
            format_urls: true,
            include_page_numbers: false,
        }
    }
}

} // verus!
