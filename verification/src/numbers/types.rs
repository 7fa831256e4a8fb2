//! Role names of the message type identifiers seen in Numbers packages.
use vstd::prelude::*;

verus! {

/// The role name of a known Numbers message type identifier.
pub open spec fn type_name_of(message_type: u64) -> Option<Seq<char>> {
    if message_type == 1 {
        Some("Document"@)
    } else if message_type == 2 {
        Some("Sheet"@)
    } else if message_type == 210 {
        Some("ViewState"@)
    } else if message_type == 213 {
        Some("AnnotationAuthorStorage"@)
    } else if message_type == 401 {
        Some("DocumentStylesheet"@)
    } else if message_type == 4000 {
        Some("CalculationEngine"@)
    } else if message_type == 4008 {
        Some("FormulaRecord"@)
    } else if message_type == 4009 {
        Some("FormulaAuxiliaryRecord"@)
    } else if message_type == 5021 {
        Some("SheetDrawable"@)
    } else if message_type == 6000 {
        Some("TableInfo"@)
    } else if message_type == 6001 {
        Some("TableModel"@)
    } else if message_type == 6002 {
        Some("Tile"@)
    } else if message_type == 6005 {
        Some("DataList"@)
    } else if message_type == 6006 {
        Some("HeaderStorageBucket"@)
    } else if message_type == 11006 {
        Some("Metadata"@)
    } else if message_type == 11008 {
        Some("ObjectContainer"@)
    } else if message_type == 11011 {
        Some("DocumentMetadata"@)
    } else {
        None
    }
}

/// The view of an optional string slice.
pub open spec fn opt_str_view(s: Option<&str>) -> Option<Seq<char>> {
    match s {
        Some(x) => Some(x@),
        None => None,
    }
}

/// Returns the role name for a known Numbers message type identifier, or
/// `None` for an identifier whose role is not established.
pub fn message_type_name(message_type: u64) -> (r: Option<&'static str>)
    ensures
        opt_str_view(r) == type_name_of(message_type),
{
    if message_type == 1 {
        Some("Document")
    } else if message_type == 2 {
        Some("Sheet")
    } else if message_type == 210 {
        Some("ViewState")
    } else if message_type == 213 {
        Some("AnnotationAuthorStorage")
    } else if message_type == 401 {
        Some("DocumentStylesheet")
    } else if message_type == 4000 {
        Some("CalculationEngine")
    } else if message_type == 4008 {
        Some("FormulaRecord")
    } else if message_type == 4009 {
        Some("FormulaAuxiliaryRecord")
    } else if message_type == 5021 {
        Some("SheetDrawable")
    } else if message_type == 6000 {
        Some("TableInfo")
    } else if message_type == 6001 {
        Some("TableModel")
    } else if message_type == 6002 {
        Some("Tile")
    } else if message_type == 6005 {
        Some("DataList")
    } else if message_type == 6006 {
        Some("HeaderStorageBucket")
    } else if message_type == 11006 {
        Some("Metadata")
    } else if message_type == 11008 {
        Some("ObjectContainer")
    } else if message_type == 11011 {
        Some("DocumentMetadata")
    } else {
        None
    }
}

} // verus!
