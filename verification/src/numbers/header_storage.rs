//! Header storage buckets (message type 6006) and their entries.
use crate::iwa::{decode_payload, field_varint, payload_fields, spec_objects, ArchiveView, IwaArchive, IwaObject};
use crate::keynote::presentation::first_of_type;
use crate::protobuf::{
    first_field, spec_decode_message, varint_value, ProtoField, ProtoFieldView, ProtoMessage, ProtoValue,
    ProtoValueView,
};
use vstd::prelude::*;

verus! {

/// Message type of a header storage bucket.
pub const HEADER_STORAGE_BUCKET_TYPE: u64 = 6006;

/// Field of the bucket holding its entries.
pub const FIELD_ENTRIES: u32 = 2;

/// A header storage bucket: its identifier and entries in stored order.
#[derive(Debug, Clone, PartialEq, Eq)]
pub struct HeaderStorageBucket {
    id: u64,
    entries: Vec<HeaderStorageEntry>,
}

/// One entry of a [`HeaderStorageBucket`].
#[derive(Debug, Clone, Copy, PartialEq, Eq)]
pub struct HeaderStorageEntry {
    index: u64,
    fixed32_bits: u32,
    field3: u64,
    field4: u64,
}

/// The mathematical content of a [`HeaderStorageEntry`].
pub struct EntryView {
    pub index: u64,
    pub fixed32_bits: u32,
    pub field3: u64,
    pub field4: u64,
}

/// The mathematical content of a [`HeaderStorageBucket`].
pub struct BucketView {
    pub id: u64,
    pub entries: Seq<EntryView>,
}

impl View for HeaderStorageEntry {
    type V = EntryView;

    closed spec fn view(&self) -> EntryView {
        EntryView { index: self.index, fixed32_bits: self.fixed32_bits, field3: self.field3, field4: self.field4 }
    }
}

impl View for HeaderStorageBucket {
    type V = BucketView;

    closed spec fn view(&self) -> BucketView {
        BucketView { id: self.id, entries: self.entries@.map_values(|e: HeaderStorageEntry| e@) }
    }
}

/// The fixed32 value of an optional field, if it is a fixed32 field.
pub open spec fn fixed32_value(f: Option<ProtoFieldView>) -> Option<u32> {
    match f {
        Some(x) => match x.value {
            ProtoValueView::Fixed32(v) => Some(v),
            _ => None,
        },
        None => None,
    }
}

/// The entry a message decodes to: varint field 1, fixed32 field 2 and
/// varint fields 3 and 4, all present.
pub open spec fn spec_header_entry(fs: Seq<ProtoFieldView>) -> Option<EntryView> {
    match (
        varint_value(first_field(fs, 1)),
        fixed32_value(first_field(fs, 2)),
        varint_value(first_field(fs, 3)),
        varint_value(first_field(fs, 4)),
    ) {
        (Some(a), Some(b), Some(c), Some(d)) => Some(EntryView { index: a, fixed32_bits: b, field3: c, field4: d }),
        _ => None,
    }
}

/// The entry a field contributes: a length-delimited value that decodes as
/// a message which is an entry.
pub open spec fn entry_of_field(f: ProtoFieldView) -> Option<EntryView> {
    match f.value {
        ProtoValueView::LengthDelimited(b) => match spec_decode_message(b) {
            Ok(m) => spec_header_entry(m),
            Err(_) => None,
        },
        _ => None,
    }
}

/// The entries of the fields numbered 2 of a bucket message, in order.
pub open spec fn spec_entries(fs: Seq<ProtoFieldView>) -> Seq<EntryView>
    decreases fs.len(),
{
    if fs.len() == 0 {
        seq![]
    } else {
        let rest = spec_entries(fs.drop_last());
        if fs.last().number == FIELD_ENTRIES {
            match entry_of_field(fs.last()) {
                Some(e) => rest.push(e),
                None => rest,
            }
        } else {
            rest
        }
    }
}

/// The bucket an archive holds: its first type-6006 object, which must have
/// an identifier and a payload that decodes.
pub open spec fn spec_bucket(a: ArchiveView) -> Option<BucketView> {
    let objs = spec_objects(a);
    match first_of_type(objs, HEADER_STORAGE_BUCKET_TYPE, 0) {
        Some(i) => match (objs[i].identifier, payload_fields(objs[i])) {
            (Some(id), Some(fs)) => Some(BucketView { id, entries: spec_entries(fs) }),
            _ => None,
        },
        None => None,
    }
}

/// The view of an optional bucket.
pub open spec fn opt_bucket_view(b: Option<HeaderStorageBucket>) -> Option<BucketView> {
    match b {
        Some(x) => Some(x@),
        None => None,
    }
}

fn entry_from_field(f: &ProtoField) -> (r: Option<HeaderStorageEntry>)
    ensures
        match entry_of_field(f@) {
            Some(e) => r matches Some(x) && x@ == e,
            None => r is None,
        },
{
    let b = match &f.value {
        ProtoValue::LengthDelimited(b) => b,
        _ => return None,
    };
    let m = match ProtoMessage::decode(b.as_slice()) {
        Ok(m) => m,
        Err(_) => return None,
    };
    let index = match field_varint(&m, 1) {
        Some(v) => v,
        None => return None,
    };
    let fixed32_bits = match m.field(2) {
        Some(x) => match &x.value {
            ProtoValue::Fixed32(v) => *v,
            _ => return None,
        },
        None => return None,
    };
    let field3 = match field_varint(&m, 3) {
        Some(v) => v,
        None => return None,
    };
    let field4 = match field_varint(&m, 4) {
        Some(v) => v,
        None => return None,
    };
    Some(HeaderStorageEntry { index, fixed32_bits, field3, field4 })
}

fn collect_entries(m: &ProtoMessage) -> (r: Vec<HeaderStorageEntry>)
    ensures
        r@.map_values(|e: HeaderStorageEntry| e@) == spec_entries(m@),
{
    let fields = m.fields();
    let ghost fs = m@;
    let mut out: Vec<HeaderStorageEntry> = Vec::new();
    let mut i: usize = 0;
    while i < fields.len()
        invariant
            i <= fields@.len(),
            fs == m@,
            fields@.map_values(|f: ProtoField| f@) == fs,
            out@.map_values(|e: HeaderStorageEntry| e@) == spec_entries(fs.take(i as int)),
        decreases fields.len() - i,
    {
        assert(fs.take(i + 1).drop_last() =~= fs.take(i as int));
        assert(fs.take(i + 1).last() == fields@[i as int]@);
        let ghost before = out@.map_values(|e: HeaderStorageEntry| e@);
        if fields[i].number == FIELD_ENTRIES {
            if let Some(e) = entry_from_field(&fields[i]) {
                out.push(e);
                assert(out@.map_values(|e: HeaderStorageEntry| e@) =~= before.push(e@));
            }
        }
        i = i + 1;
    }
    assert(fs.take(fields@.len() as int) =~= fs);
    out
}

impl HeaderStorageBucket {
    /// Decodes the bucket an archive holds (see [`spec_bucket`]).
    pub fn from_archive(archive: &IwaArchive) -> (r: Option<HeaderStorageBucket>)
        ensures
            opt_bucket_view(r) == spec_bucket(archive@),
    {
        let objects = archive.objects();
        let ghost all = objects@.map_values(|o: IwaObject| o@);
        let mut i: usize = 0;
        while i < objects.len()
            invariant
                i <= objects@.len(),
                all == objects@.map_values(|o: IwaObject| o@),
                all == spec_objects(archive@),
                first_of_type(all, HEADER_STORAGE_BUCKET_TYPE, 0) == first_of_type(
                    all,
                    HEADER_STORAGE_BUCKET_TYPE,
                    i as int,
                ),
            decreases objects.len() - i,
        {
            assert(all[i as int] == objects@[i as int]@);
            if objects[i].message_type == Some(HEADER_STORAGE_BUCKET_TYPE) {
                let id = match objects[i].identifier {
                    Some(id) => id,
                    None => return None,
                };
                let m = match decode_payload(&objects[i]) {
                    Some(m) => m,
                    None => return None,
                };
                let entries = collect_entries(&m);
                return Some(HeaderStorageBucket { id, entries });
            }
            i = i + 1;
        }
        None
    }

    /// The bucket object's identifier within the package.
    pub fn id(&self) -> (r: u64)
        ensures
            r == self@.id,
    {
        self.id
    }

    /// The bucket's entries in stored order.
    pub fn entries(&self) -> (r: &[HeaderStorageEntry])
        ensures
            r@.map_values(|e: HeaderStorageEntry| e@) == self@.entries,
    {
        self.entries.as_slice()
    }
}

impl HeaderStorageEntry {
    /// Entry ordinal stored in field 1.
    pub fn index(&self) -> (r: u64)
        ensures
            r == self@.index,
    {
        self.index
    }

    /// Raw fixed32 bits stored in field 2.
    pub fn fixed32_bits(&self) -> (r: u32)
        ensures
            r == self@.fixed32_bits,
    {
        self.fixed32_bits
    }

    /// Raw varint stored in field 3.
    pub fn field3(&self) -> (r: u64)
        ensures
            r == self@.field3,
    {
        self.field3
    }

    /// Raw varint stored in field 4.
    pub fn field4(&self) -> (r: u64)
        ensures
            r == self@.field4,
    {
        self.field4
    }
}

} // verus!
