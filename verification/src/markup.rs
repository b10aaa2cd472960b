//! Markup processing surface: the interface domain modules implement to turn
//! entry content into HTML and to extract links.

use vstd::prelude::*;

verus! {

/// Rendered HTML text.
pub type HTML = String;

/// A link found in entry content.
pub type Link = String;

/// Kind of markup error.
#[derive(Clone, Copy, Debug, PartialEq, Eq)]
pub enum MarkupErrorKind {
    Unknown,
}

/// A short description of a markup error kind.
pub fn error_type_as_str(e: &MarkupErrorKind) -> (r: &'static str)
{
    match e {
        MarkupErrorKind::Unknown => "",
    }
}

/// Markup error type, optionally with a cause.
#[derive(Debug)]
pub struct MarkupError {
    err_type: MarkupErrorKind,
    cause: Option<Box<MarkupError>>,
}

impl MarkupError {
    /// Build a new `MarkupError` from a `MarkupErrorKind`, optionally with
    /// cause.
    pub fn new(errtype: MarkupErrorKind, cause: Option<Box<MarkupError>>) -> (r: MarkupError)
        ensures
            r.spec_kind() == errtype,
    {
        MarkupError { err_type: errtype, cause: cause }
    }

    /// The kind of this error.
    pub closed spec fn spec_kind(&self) -> MarkupErrorKind {
        self.err_type
    }

    /// Get the error kind of this `MarkupError`.
    pub fn err_type(&self) -> (r: MarkupErrorKind)
        ensures
            r == self.spec_kind(),
    {
        self.err_type
    }
}

/// Conversion of markup content into HTML.
pub trait IntoHtml {
    fn into_html(self) -> Result<HTML, MarkupError>;
}

/// Extraction of links from markup content.
pub trait LinkExtractor {
    fn links(&self) -> Vec<Link>;

    fn has_external_links(&self) -> bool;

    fn has_internal_links(&self) -> bool;

    fn has_link(&self, link: Link) -> (r: bool) {
        let ls = self.links();
        let mut i: usize = 0;
        while i < ls.len()
            invariant
                0 <= i <= ls@.len(),
            decreases ls@.len() - i,
        {
            if ls[i] == link {
                return true;
            }
            i = i + 1;
        }
        false
    }
}

/// BBCode-marked content.
#[derive(Debug)]
pub struct BBCode {
    pub entry_content: String,
}

/// CommonMark-marked content.
#[derive(Debug)]
pub struct CommonMark {
    pub entry_content: String,
}

/// Textile-marked content.
#[derive(Debug)]
pub struct Textile {
    pub entry_content: String,
}

} // verus!
