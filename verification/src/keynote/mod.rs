//! Keynote presentations: theme, slides and their text.
use crate::error::Error;
use crate::package::{
    inspection_matches, load_error_matches, spec_package_entries, Package, PackageView,
};
use crate::kind::{spec_kind_of, DocumentKind};
use crate::InspectionReport;
use vstd::prelude::*;

pub mod laws;
pub mod order_laws;
pub mod presentation;
pub mod semantic;
pub mod write;

pub use presentation::{Presentation, Slide};
pub use semantic::{SemanticPresentation, SemanticSlide};

use presentation::spec_presentation;
use write::keynote_members;
use crate::package::{member_bytes, spec_zip, zip_fits};

verus! {

/// A Keynote package.
#[derive(Debug, Clone)]
pub struct Document {
    package: Package,
}

impl View for Document {
    type V = PackageView;

    closed spec fn view(&self) -> PackageView {
        self.package@
    }
}

impl Document {
    /// Checks that `path` names a Keynote document by its extension; any
    /// other path is refused with [`Error::UnsupportedDocumentType`].
    pub fn check_path(path: &str) -> (r: Result<(), Error>)
        ensures
            spec_kind_of(path@) == DocumentKind::Keynote ==> r is Ok,
            spec_kind_of(path@) != DocumentKind::Keynote ==> (r matches Err(Error::UnsupportedDocumentType(s))
                && s@ == path@),
    {
        match DocumentKind::from_path(path) {
            DocumentKind::Keynote => Ok(()),
            _ => Err(Error::UnsupportedDocumentType(path.to_owned())),
        }
    }

    /// Opens a Keynote package from raw bytes.
    pub fn from_bytes(bytes: Vec<u8>) -> (r: Result<Document, Error>)
        ensures
            match spec_package_entries(bytes@) {
                Ok(es) => r matches Ok(d) && d@.entries == es && d@.bytes == bytes@,
                Err(e) => r matches Err(x) && x == e,
            },
    {
        Ok(Document { package: Package::from_bytes(bytes)? })
    }

    /// The underlying package.
    pub fn package(&self) -> (r: &Package)
        ensures
            r@ == self@,
    {
        &self.package
    }

    /// Decodes the presentation: theme name and slides.
    pub fn presentation(&self) -> (r: Result<Presentation, Error>)
        ensures
            match spec_presentation(self@) {
                Ok(p) => r matches Ok(x) && x@ == p,
                Err(e) => load_error_matches(r, e),
            },
    {
        Presentation::from_package(&self.package)
    }

    /// Re-encodes the document: decodes its presentation and writes it back
    /// as a Keynote package, failing as either step fails.
    pub fn to_bytes(&self) -> (r: Result<Vec<u8>, Error>)
        ensures
            match spec_presentation(self@) {
                Ok(p) => if zip_fits(member_bytes(keynote_members(p))) {
                    r matches Ok(v) && v@ == spec_zip(member_bytes(keynote_members(p)))
                } else {
                    r matches Err(Error::InvalidCentralDirectory)
                },
                Err(e) => load_error_matches(r, e),
            },
    {
        let presentation = self.presentation()?;
        presentation.to_keynote_bytes()
    }

    /// Produces a small inspection report for the package.
    pub fn inspect(&self, path: String) -> (r: Result<InspectionReport, Error>)
        ensures
            inspection_matches(r, self@, path@),
    {
        self.package.inspect(path)
    }
}

} // verus!
