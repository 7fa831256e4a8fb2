//! The UTF-8 text fields of a Pages document archive.
use crate::error::Error;
use crate::iwa_text::{extract_utf8_fields, spec_utf8_fields};
use crate::keynote::presentation::opt_view;
use crate::numbers::types::opt_str_view;
use crate::package::{load_error_matches, spec_read_archive, LoadError, Package, PackageView};
use vstd::prelude::*;

verus! {

/// The text fields of `Index/Document.iwa`; titles and headings are not
/// classified.
#[derive(Debug, Clone, Default, PartialEq, Eq)]
pub struct SemanticDocument {
    title: Option<String>,
    headings: Vec<String>,
    text_fragments: Vec<String>,
}

/// The mathematical content of a [`SemanticDocument`].
pub struct SemanticDocumentView {
    pub title: Option<Seq<char>>,
    pub headings: Seq<Seq<char>>,
    pub text_fragments: Seq<Seq<char>>,
}

impl View for SemanticDocument {
    type V = SemanticDocumentView;

    closed spec fn view(&self) -> SemanticDocumentView {
        SemanticDocumentView {
            title: opt_view(self.title),
            headings: self.headings@.map_values(|s: String| s@),
            text_fragments: self.text_fragments@.map_values(|s: String| s@),
        }
    }
}

/// The text of a Pages package: the text fields of `Index/Document.iwa`.
pub open spec fn spec_semantic_document(p: PackageView) -> Result<SemanticDocumentView, LoadError> {
    match spec_read_archive(p, "Index/Document.iwa"@) {
        Ok(a) => Ok(SemanticDocumentView { title: None, headings: seq![], text_fragments: spec_utf8_fields(a.body) }),
        Err(e) => Err(e),
    }
}

impl SemanticDocument {
    /// Decodes the text fields of `Index/Document.iwa`.
    pub fn from_package(package: &Package) -> (r: Result<SemanticDocument, Error>)
        ensures
            match spec_semantic_document(package@) {
                Ok(d) => r matches Ok(x) && x@ == d,
                Err(e) => load_error_matches(r, e),
            },
    {
        let archive = package.read_archive("Index/Document.iwa")?;
        let text_fragments = extract_utf8_fields(&archive);
        let headings: Vec<String> = Vec::new();
        let r = SemanticDocument { title: None, headings, text_fragments };
        assert(r@.headings =~= seq![]);
        Ok(r)
    }

    /// The document title, if known.
    pub fn title(&self) -> (r: Option<&str>)
        ensures
            opt_str_view(r) == self@.title,
    {
        match &self.title {
            Some(s) => Some(s.as_str()),
            None => None,
        }
    }

    /// The document headings.
    pub fn headings(&self) -> (r: &[String])
        ensures
            r@.map_values(|s: String| s@) == self@.headings,
    {
        self.headings.as_slice()
    }

    /// The document's text fields, in order.
    pub fn text_fragments(&self) -> (r: &[String])
        ensures
            r@.map_values(|s: String| s@) == self@.text_fragments,
    {
        self.text_fragments.as_slice()
    }
}

} // verus!
