//! Formula records (message type 4008) of `Index/CalculationEngine.iwa`.
use crate::iwa::{decode_payload, field_varint, payload_fields, IwaObject, ObjectView};
use crate::protobuf::{first_field, varint_value};
use vstd::prelude::*;

verus! {

/// Message type of a formula record.
pub const FORMULA_RECORD_TYPE: u64 = 4008;

/// Field holding the local formula id.
pub const FIELD_FORMULA_ID: u32 = 2;

/// Field holding the formula classifier.
pub const FIELD_FORMULA_KIND: u32 = 3;

/// A formula record: its object id, local formula id and classifier.
#[derive(Debug, Clone, Copy, PartialEq, Eq)]
pub struct FormulaRecord {
    object_id: u64,
    formula_id: u32,
    formula_kind: u64,
}

/// The mathematical content of a [`FormulaRecord`].
pub struct FormulaView {
    pub object_id: u64,
    pub formula_id: u32,
    pub formula_kind: u64,
}

impl View for FormulaRecord {
    type V = FormulaView;

    closed spec fn view(&self) -> FormulaView {
        FormulaView { object_id: self.object_id, formula_id: self.formula_id, formula_kind: self.formula_kind }
    }
}

/// The formula record an object decodes to: a type-4008 object with an
/// identifier, a payload that decodes and a varint field 2 that fits in 32
/// bits; field 3 is its classifier, 0 when absent.
pub open spec fn spec_formula_record(o: ObjectView) -> Option<FormulaView> {
    if o.message_type != Some(FORMULA_RECORD_TYPE) {
        None
    } else {
        match (o.identifier, payload_fields(o)) {
            (Some(id), Some(fs)) => match varint_value(first_field(fs, FIELD_FORMULA_ID)) {
                Some(fid) => if fid <= u32::MAX {
                    Some(
                        FormulaView {
                            object_id: id,
                            formula_id: fid as u32,
                            formula_kind: match varint_value(first_field(fs, FIELD_FORMULA_KIND)) {
                                Some(k) => k,
                                None => 0,
                            },
                        },
                    )
                } else {
                    None
                },
                None => None,
            },
            _ => None,
        }
    }
}

/// The formula records of a sequence of objects, in order.
pub open spec fn spec_formula_records(objs: Seq<ObjectView>) -> Seq<FormulaView>
    decreases objs.len(),
{
    if objs.len() == 0 {
        seq![]
    } else {
        let rest = spec_formula_records(objs.drop_last());
        match spec_formula_record(objs.last()) {
            Some(f) => rest.push(f),
            None => rest,
        }
    }
}

impl FormulaRecord {
    /// Decodes an object as a formula record (see [`spec_formula_record`]).
    pub fn from_object(object: &IwaObject) -> (r: Option<FormulaRecord>)
        ensures
            match spec_formula_record(object@) {
                Some(f) => r matches Some(x) && x@ == f,
                None => r is None,
            },
    {
        if object.message_type != Some(FORMULA_RECORD_TYPE) {
            return None;
        }
        let object_id = match object.identifier {
            Some(id) => id,
            None => return None,
        };
        let message = match decode_payload(object) {
            Some(m) => m,
            None => return None,
        };
        let fid = match field_varint(&message, FIELD_FORMULA_ID) {
            Some(v) => v,
            None => return None,
        };
        if fid > 0xffff_ffff {
            return None;
        }
        let formula_kind = match field_varint(&message, FIELD_FORMULA_KIND) {
            Some(k) => k,
            None => 0,
        };
        Some(FormulaRecord { object_id, formula_id: fid as u32, formula_kind })
    }

    /// Decodes the formula records among `objects`, in order.
    pub fn collect(objects: &Vec<IwaObject>) -> (r: Vec<FormulaRecord>)
        ensures
            r@.map_values(|f: FormulaRecord| f@) == spec_formula_records(
                objects@.map_values(|o: IwaObject| o@),
            ),
    {
        let ghost all = objects@.map_values(|o: IwaObject| o@);
        let mut out: Vec<FormulaRecord> = Vec::new();
        let mut i: usize = 0;
        while i < objects.len()
            invariant
                i <= objects@.len(),
                all == objects@.map_values(|o: IwaObject| o@),
                out@.map_values(|f: FormulaRecord| f@) == spec_formula_records(all.take(i as int)),
            decreases objects.len() - i,
        {
            assert(all.take(i + 1).drop_last() =~= all.take(i as int));
            assert(all.take(i + 1).last() == objects@[i as int]@);
            let ghost before = out@.map_values(|f: FormulaRecord| f@);
            if let Some(f) = FormulaRecord::from_object(&objects[i]) {
                out.push(f);
                assert(out@.map_values(|f: FormulaRecord| f@) =~= before.push(f@));
            }
            i = i + 1;
        }
        assert(all.take(objects@.len() as int) =~= all);
        out
    }

    /// Object identifier of this formula record within the package.
    pub fn object_id(&self) -> (r: u64)
        ensures
            r == self@.object_id,
    {
        self.object_id
    }

    /// Local formula id referenced by formula-result cells.
    pub fn formula_id(&self) -> (r: u32)
        ensures
            r == self@.formula_id,
    {
        self.formula_id
    }

    /// Raw field-3 classifier of the record.
    pub fn formula_kind(&self) -> (r: u64)
        ensures
            r == self@.formula_kind,
    {
        self.formula_kind
    }
}

} // verus!
