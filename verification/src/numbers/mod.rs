//! Numbers spreadsheets: sheets, table models, formula records and the
//! object graph of the package's archives.
use crate::error::Error;
use crate::kind::{spec_kind_of, DocumentKind};
use crate::package::{
    inspection_matches, load_error_matches, spec_package_entries, Package, PackageView,
};
use crate::InspectionReport;
use vstd::prelude::*;

pub mod catalog;
pub mod cell;
pub mod counts;
pub mod datalist;
pub mod drawable;
pub mod formula;
pub mod formula_join;
pub mod header_storage;
pub mod rows;
pub mod row_laws;
pub mod sheet;
pub mod spreadsheet;
pub mod tile;
pub mod table_model;
pub mod types;
pub mod write;
pub mod write_laws;

pub use drawable::SheetDrawable;
pub use formula::FormulaRecord;
pub use header_storage::{HeaderStorageBucket, HeaderStorageEntry};
pub use sheet::Sheet;
pub use spreadsheet::{ObjectInfo, Spreadsheet, TableArchive};
pub use table_model::TableModel;
pub use types::message_type_name;

use spreadsheet::spec_spreadsheet;

verus! {

/// A Numbers package.
#[derive(Debug, Clone)]
pub struct Document {
    package: Package,
}

impl View for Document {
    type V = PackageView;

    closed spec fn view(&self) -> PackageView {
        self.package@
    }
}

impl Document {
    /// Checks that `path` names a Numbers document by its extension; any
    /// other path is refused with [`Error::UnsupportedDocumentType`].
    pub fn check_path(path: &str) -> (r: Result<(), Error>)
        ensures
            spec_kind_of(path@) == DocumentKind::Numbers ==> r is Ok,
            spec_kind_of(path@) != DocumentKind::Numbers ==> (r matches Err(Error::UnsupportedDocumentType(s))
                && s@ == path@),
    {
        match DocumentKind::from_path(path) {
            DocumentKind::Numbers => Ok(()),
            _ => Err(Error::UnsupportedDocumentType(path.to_owned())),
        }
    }

    /// Opens a Numbers package from raw bytes.
    pub fn from_bytes(bytes: Vec<u8>) -> (r: Result<Document, Error>)
        ensures
            match spec_package_entries(bytes@) {
                Ok(es) => r matches Ok(d) && d@.entries == es && d@.bytes == bytes@,
                Err(e) => r matches Err(x) && x == e,
            },
    {
        Ok(Document { package: Package::from_bytes(bytes)? })
    }

    /// The underlying package.
    pub fn package(&self) -> (r: &Package)
        ensures
            r@ == self@,
    {
        &self.package
    }

    /// Decodes the spreadsheet archives needed for table access.
    pub fn spreadsheet(&self) -> (r: Result<Spreadsheet, Error>)
        ensures
            match spec_spreadsheet(self@) {
                Ok(s) => r matches Ok(x) && x@ == s,
                Err(e) => load_error_matches(r, e),
            },
    {
        Spreadsheet::from_package(&self.package)
    }

    /// Produces a small inspection report for the package.
    pub fn inspect(&self, path: String) -> (r: Result<InspectionReport, Error>)
        ensures
            inspection_matches(r, self@, path@),
    {
        self.package.inspect(path)
    }
}

} // verus!
