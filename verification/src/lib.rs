//! Reader and writer for Apple iWork packages (`.numbers`, `.pages`, `.key`).
//!
//! Open a document with the app-specific types:
//!
//! - [`numbers::Document`] — spreadsheet data: sheets and table models
//! - [`pages::Document`] — word-processor packages
//! - [`keynote::Document`] — presentation: slides, titles, text, media descriptions
//!
//! Use the generic [`Document`] when only the file-format version, UUID and
//! layout are needed.
use vstd::prelude::*;

pub mod error;
pub mod protobuf;
pub mod snappy;
pub mod iwa;
pub mod text;
pub mod package;
pub mod plist;
pub mod kind;
pub mod stylesheet;
pub mod style_catalog;
pub mod inspect;
pub mod encode;
pub mod iwa_text;
pub mod keynote;
pub mod numbers;
pub mod pages;
pub mod zip_laws;
pub mod iwa_laws;

pub use error::Error;
pub use inspect::InspectionReport;
pub use kind::DocumentKind;
pub use package::{Package, PackageSupport};
pub use plist::PropertiesPlist;

use package::{inspection_matches, spec_package_entries, PackageView};

verus! {

/// A generic iWork package: format-version metadata and document-kind detection.
#[derive(Debug, Clone)]
pub struct Document {
    package: Package,
}

impl View for Document {
    type V = PackageView;

    closed spec fn view(&self) -> PackageView {
        self.package@
    }
}

impl Document {
    /// Opens a supported iWork package from raw bytes.
    pub fn from_bytes(bytes: Vec<u8>) -> (r: Result<Document, Error>)
        ensures
            match spec_package_entries(bytes@) {
                Ok(es) => r matches Ok(d) && d@.entries == es && d@.bytes == bytes@,
                Err(e) => r matches Err(x) && x == e,
            },
    {
        Ok(Document { package: Package::from_bytes(bytes)? })
    }

    /// Produces a small inspection report: document kind, UUID, format
    /// version and package layout.
    pub fn inspect(&self, path: String) -> (r: Result<InspectionReport, Error>)
        ensures
            inspection_matches(r, self@, path@),
    {
        self.package.inspect(path)
    }
}

} // verus!
