//! Names of the formats an analysis can be exported in.
use vstd::prelude::*;
use crate::constraint::same_text;

verus! {

/// Formats an analysis can be exported in.
#[derive(Debug, Clone, Copy, PartialEq, Eq, Structural)]
pub enum ExportFormat {
    /// Plain text.
    Text,
    /// JSON.
    Json,
    /// Markdown.
    Markdown,
    /// HTML.
    Html,
    /// CSV.
    Csv,
}

/// The lower-case form of a text, as `str::to_lowercase` gives it.
pub uninterp spec fn lower_of(s: Seq<char>) -> Seq<char>;

/// Relies on `str::to_lowercase`: the lower-case form depends on the
/// characters alone.
#[verifier::external_body]
fn lowercase(s: &str) -> (r: String)
    ensures
        r@ == lower_of(s@),
{
    s.to_lowercase()
}

/// The format a lower-case name stands for.
pub open spec fn format_named(s: Seq<char>) -> Option<ExportFormat> {
    if s == "text"@ || s == "txt"@ {
        Some(ExportFormat::Text)
    } else if s == "json"@ {
        Some(ExportFormat::Json)
    } else if s == "markdown"@ || s == "md"@ {
        Some(ExportFormat::Markdown)
    } else if s == "html"@ {
        Some(ExportFormat::Html)
    } else if s == "csv"@ {
        Some(ExportFormat::Csv)
    } else {
        None
    }
}

impl ExportFormat {
    /// The format of an already lower-cased name.
    pub fn from_lowercase(s: &str) -> (r: Option<ExportFormat>)
        ensures
            r == format_named(s@),
    {
        if same_text(s, "text") || same_text(s, "txt") {
            Some(ExportFormat::Text)
        } else if same_text(s, "json") {
            Some(ExportFormat::Json)
        } else if same_text(s, "markdown") || same_text(s, "md") {
            Some(ExportFormat::Markdown)
        } else if same_text(s, "html") {
            Some(ExportFormat::Html)
        } else if same_text(s, "csv") {
            Some(ExportFormat::Csv)
        } else {
            None
        }
    }

    /// The format a name stands for, in any letter case.
    pub fn from_str(s: &str) -> (r: Option<ExportFormat>)
        ensures
            r == format_named(lower_of(s@)),
    {
        let lower = lowercase(s);
        ExportFormat::from_lowercase(lower.as_str())
    }
}

} // verus!
