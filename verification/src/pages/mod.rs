//! Pages documents: the package, its index archives and text fields.
use crate::error::Error;
use crate::kind::{spec_kind_of, DocumentKind};
use crate::package::{
    inspection_matches, load_error_matches, spec_package_entries, Package, PackageView,
};
use body::spec_body;
use crate::InspectionReport;
use vstd::prelude::*;

pub mod body;
pub mod document_model;
pub mod laws;
pub mod paragraphs;
pub mod write;
pub mod semantic;

pub use body::{Body, Paragraph, TextFormatting, TextRun};
pub use document_model::{DocumentModel, IndexArchive};
pub use semantic::SemanticDocument;

verus! {

/// A Pages package.
#[derive(Debug, Clone)]
pub struct Document {
    package: Package,
}

impl View for Document {
    type V = PackageView;

    closed spec fn view(&self) -> PackageView {
        self.package@
    }
}

impl Document {
    /// Checks that `path` names a Pages document by its extension; any other
    /// path is refused with [`Error::UnsupportedDocumentType`].
    pub fn check_path(path: &str) -> (r: Result<(), Error>)
        ensures
            spec_kind_of(path@) == DocumentKind::Pages ==> r is Ok,
            spec_kind_of(path@) != DocumentKind::Pages ==> (r matches Err(Error::UnsupportedDocumentType(s))
                && s@ == path@),
    {
        match DocumentKind::from_path(path) {
            DocumentKind::Pages => Ok(()),
            _ => Err(Error::UnsupportedDocumentType(path.to_owned())),
        }
    }

    /// Opens a Pages package from raw bytes.
    pub fn from_bytes(bytes: Vec<u8>) -> (r: Result<Document, Error>)
        ensures
            match spec_package_entries(bytes@) {
                Ok(es) => r matches Ok(d) && d@.entries == es && d@.bytes == bytes@,
                Err(e) => r matches Err(x) && x == e,
            },
    {
        Ok(Document { package: Package::from_bytes(bytes)? })
    }

    /// The underlying package.
    pub fn package(&self) -> (r: &Package)
        ensures
            r@ == self@,
    {
        &self.package
    }

    /// Decodes the document body (see [`spec_body`]).
    pub fn document(&self) -> (r: Result<Body, Error>)
        ensures
            match spec_body(self@) {
                Ok(b) => r matches Ok(x) && x@ == b,
                Err(e) => load_error_matches(r, e),
            },
    {
        Body::from_package(&self.package)
    }

    /// Produces a small inspection report for the package.
    pub fn inspect(&self, path: String) -> (r: Result<InspectionReport, Error>)
        ensures
            inspection_matches(r, self@, path@),
    {
        self.package.inspect(path)
    }
}

} // verus!
