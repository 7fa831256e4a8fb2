//! Sheet-level drawable objects (message type 5021), kept as raw payloads.
use crate::error::Error;
use crate::iwa::{decode_payload, field_bytes, payload_fields, IwaObject, ObjectView};
use crate::protobuf::{bytes_value, first_field, spec_decode_message, ProtoMessage};
use vstd::prelude::*;

verus! {

/// Message type of a sheet-level drawable.
pub const SHEET_DRAWABLE_TYPE: u64 = 5021;

/// Field holding the drawable's info message.
pub const FIELD_DRAWABLE_INFO: u32 = 1;

/// Field holding the drawable's main payload.
pub const FIELD_DRAWABLE_PAYLOAD: u32 = 10000;

/// A sheet-level drawable: its identifier and two top-level payloads.
#[derive(Debug, Clone, PartialEq, Eq)]
pub struct SheetDrawable {
    object_id: u64,
    info_payload: Vec<u8>,
    payload: Vec<u8>,
}

/// The mathematical content of a [`SheetDrawable`].
pub struct DrawableView {
    pub object_id: u64,
    pub info_payload: Seq<u8>,
    pub payload: Seq<u8>,
}

impl View for SheetDrawable {
    type V = DrawableView;

    closed spec fn view(&self) -> DrawableView {
        DrawableView { object_id: self.object_id, info_payload: self.info_payload@, payload: self.payload@ }
    }
}

/// The drawable an object decodes to: a type-5021 object with an identifier,
/// a payload that decodes, and length-delimited fields 1 and 10000.
pub open spec fn spec_sheet_drawable(o: ObjectView) -> Option<DrawableView> {
    if o.message_type != Some(SHEET_DRAWABLE_TYPE) {
        None
    } else {
        match (o.identifier, payload_fields(o)) {
            (Some(id), Some(fs)) => match (
                bytes_value(first_field(fs, FIELD_DRAWABLE_INFO)),
                bytes_value(first_field(fs, FIELD_DRAWABLE_PAYLOAD)),
            ) {
                (Some(info), Some(p)) => Some(DrawableView { object_id: id, info_payload: info, payload: p }),
                _ => None,
            },
            _ => None,
        }
    }
}

/// The view of an optional drawable.
pub open spec fn opt_drawable_view(d: Option<SheetDrawable>) -> Option<DrawableView> {
    match d {
        Some(x) => Some(x@),
        None => None,
    }
}

impl SheetDrawable {
    /// Decodes an object as a drawable (see [`spec_sheet_drawable`]).
    pub fn from_object(object: &IwaObject) -> (r: Option<SheetDrawable>)
        ensures
            opt_drawable_view(r) == spec_sheet_drawable(object@),
    {
        if object.message_type != Some(SHEET_DRAWABLE_TYPE) {
            return None;
        }
        let object_id = match object.identifier {
            Some(id) => id,
            None => return None,
        };
        let message = match decode_payload(object) {
            Some(m) => m,
            None => return None,
        };
        let info_payload = match field_bytes(&message, FIELD_DRAWABLE_INFO) {
            Some(b) => b,
            None => return None,
        };
        let payload = match field_bytes(&message, FIELD_DRAWABLE_PAYLOAD) {
            Some(b) => b,
            None => return None,
        };
        Some(SheetDrawable { object_id, info_payload, payload })
    }

    /// Object identifier of this drawable within the package.
    pub fn object_id(&self) -> (r: u64)
        ensures
            r == self@.object_id,
    {
        self.object_id
    }

    /// Raw top-level field-1 payload.
    pub fn info_payload(&self) -> (r: &[u8])
        ensures
            r@ == self@.info_payload,
    {
        self.info_payload.as_slice()
    }

    /// Decodes the field-1 payload as a nested message.
    pub fn info_message(&self) -> (r: Result<ProtoMessage, Error>)
        ensures
            match spec_decode_message(self@.info_payload) {
                Ok(fs) => r matches Ok(m) && m@ == fs,
                Err(e) => r == Err::<ProtoMessage, Error>(e),
            },
    {
        ProtoMessage::decode(self.info_payload.as_slice())
    }

    /// Raw top-level field-10000 payload.
    pub fn payload(&self) -> (r: &[u8])
        ensures
            r@ == self@.payload,
    {
        self.payload.as_slice()
    }

    /// Decodes the field-10000 payload as a nested message.
    pub fn payload_message(&self) -> (r: Result<ProtoMessage, Error>)
        ensures
            match spec_decode_message(self@.payload) {
                Ok(fs) => r matches Ok(m) && m@ == fs,
                Err(e) => r == Err::<ProtoMessage, Error>(e),
            },
    {
        ProtoMessage::decode(self.payload.as_slice())
    }
}

} // verus!
