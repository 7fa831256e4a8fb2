//! Table models (message type 6001): a table's name, geometry and storage.
use crate::iwa::{
    decode_payload, field_bytes, field_varint, nested_fields, nested_message_of, payload_fields, IwaObject,
    ObjectView,
};
use crate::keynote::presentation::opt_view;
use crate::numbers::types::opt_str_view;
use crate::protobuf::{
    bytes_value, first_field, spec_decode_message, varint_value, ProtoField, ProtoFieldView, ProtoMessage,
    ProtoValue, ProtoValueView,
};
use crate::text::{opt_utf8_chars, opt_utf8_string};
use vstd::prelude::*;

verus! {

/// Message type of a table model.
pub const TABLE_MODEL_TYPE: u64 = 6001;

/// Rows per tile when the tile storage does not state its tile size.
pub const DEFAULT_TILE_SIZE: u32 = 256;

/// A table model: name and grid geometry, with the storage it refers to.
#[derive(Debug, PartialEq, Eq)]
pub struct TableModel {
    id: u64,
    uuid: Option<String>,
    name: Option<String>,
    row_count: u32,
    column_count: u32,
    header_row_count: u32,
    header_column_count: u32,
    tile_ids: Vec<u64>,
    tile_row_offsets: Vec<u32>,
    string_data_list_id: Option<u64>,
}

/// The mathematical content of a [`TableModel`]; `tiles` pairs each tile's
/// starting row with its identifier, in tile-index order.
pub struct TableModelView {
    pub id: u64,
    pub uuid: Option<Seq<char>>,
    pub name: Option<Seq<char>>,
    pub row_count: u32,
    pub column_count: u32,
    pub header_row_count: u32,
    pub header_column_count: u32,
    pub tiles: Seq<(u32, u64)>,
    pub string_data_list_id: Option<u64>,
}

impl TableModel {
    /// Each tile has its first row.
    #[verifier::type_invariant]
    spec fn well_formed(self) -> bool {
        &&& self.tile_row_offsets@.len() == self.tile_ids@.len()
        &&& self.header_row_count <= self.row_count
        &&& self.header_column_count <= self.column_count
    }
}

impl Clone for TableModel {
    fn clone(&self) -> (r: TableModel) {
        proof {
            use_type_invariant(self);
        }
        TableModel {
            id: self.id,
            uuid: self.uuid.clone(),
            name: self.name.clone(),
            row_count: self.row_count,
            column_count: self.column_count,
            header_row_count: self.header_row_count,
            header_column_count: self.header_column_count,
            tile_ids: self.tile_ids.clone(),
            tile_row_offsets: self.tile_row_offsets.clone(),
            string_data_list_id: self.string_data_list_id,
        }
    }
}

impl View for TableModel {
    type V = TableModelView;

    closed spec fn view(&self) -> TableModelView {
        TableModelView {
            id: self.id,
            uuid: opt_view(self.uuid),
            name: opt_view(self.name),
            row_count: self.row_count,
            column_count: self.column_count,
            header_row_count: self.header_row_count,
            header_column_count: self.header_column_count,
            tiles: Seq::new(
                self.tile_ids@.len(),
                |i: int| (self.tile_row_offsets@[i], self.tile_ids@[i]),
            ),
            string_data_list_id: self.string_data_list_id,
        }
    }
}

/// A count field: its varint when it fits in 32 bits, else 0.
pub open spec fn count_of(fs: Seq<ProtoFieldView>, n: u32) -> u32 {
    match varint_value(first_field(fs, n)) {
        Some(v) => if v <= u32::MAX {
            v as u32
        } else {
            0
        },
        None => 0,
    }
}

/// A text field: its bytes when they are valid UTF-8.
pub open spec fn text_of(fs: Seq<ProtoFieldView>, n: u32) -> Option<Seq<char>> {
    opt_utf8_chars(bytes_value(first_field(fs, n)))
}

/// A header count kept within the count of the whole grid.
pub open spec fn clamped(n: u32, limit: u32) -> u32 {
    if n <= limit {
        n
    } else {
        limit
    }
}

fn clamp_to(n: u32, limit: u32) -> (r: u32)
    ensures
        r == clamped(n, limit),
{
    if n <= limit {
        n
    } else {
        limit
    }
}

/// The identifier an object reference message holds in field 1.
pub open spec fn reference_id(fs: Option<Seq<ProtoFieldView>>) -> Option<u64> {
    match fs {
        Some(m) => varint_value(first_field(m, 1)),
        None => None,
    }
}

/// A tile entry's `(index, row offset, tile id)`.
pub open spec fn tile_entry(f: ProtoFieldView, tile_size: u32) -> Option<(u32, u32, u64)> {
    match f.value {
        ProtoValueView::LengthDelimited(b) => match spec_decode_message(b) {
            Ok(e) => {
                let index = count_of(e, 1);
                match reference_id(nested_fields(e, 2)) {
                    Some(id) => Some(
                        (
                            index,
                            if index * tile_size <= u32::MAX {
                                (index * tile_size) as u32
                            } else {
                                u32::MAX
                            },
                            id,
                        ),
                    ),
                    None => None,
                }
            },
            Err(_) => None,
        },
        _ => None,
    }
}

/// The tile entries among the fields numbered 1 of a tile storage.
pub open spec fn tile_entries(fs: Seq<ProtoFieldView>, tile_size: u32) -> Seq<(u32, u32, u64)>
    decreases fs.len(),
{
    if fs.len() == 0 {
        seq![]
    } else {
        let rest = tile_entries(fs.drop_last(), tile_size);
        if fs.last().number == 1 {
            match tile_entry(fs.last(), tile_size) {
                Some(t) => rest.push(t),
                None => rest,
            }
        } else {
            rest
        }
    }
}

/// Inserting `x` after every entry whose index is not greater than its own.
pub open spec fn insert_by_index(xs: Seq<(u32, u32, u64)>, x: (u32, u32, u64), j: int) -> Seq<(u32, u32, u64)>
    decreases xs.len() - j,
{
    if j < 0 || j >= xs.len() {
        xs.push(x)
    } else if x.0 < xs[j].0 {
        xs.insert(j, x)
    } else {
        insert_by_index(xs, x, j + 1)
    }
}

/// Tile entries stably sorted by index.
pub open spec fn sort_by_index(xs: Seq<(u32, u32, u64)>) -> Seq<(u32, u32, u64)>
    decreases xs.len(),
{
    if xs.len() == 0 {
        seq![]
    } else {
        insert_by_index(sort_by_index(xs.drop_last()), xs.last(), 0)
    }
}

/// The tile size a tile storage states in field 2, when positive and 32-bit.
pub open spec fn tile_size_of(ts: Seq<ProtoFieldView>) -> u32 {
    match varint_value(first_field(ts, 2)) {
        Some(v) => if 0 < v <= u32::MAX {
            v as u32
        } else {
            DEFAULT_TILE_SIZE
        },
        None => DEFAULT_TILE_SIZE,
    }
}

/// A data store's tiles as `(row offset, tile id)` in tile-index order.
pub open spec fn spec_tiles(data_store: Seq<ProtoFieldView>) -> Seq<(u32, u64)> {
    match nested_fields(data_store, 3) {
        Some(ts) => sort_by_index(tile_entries(ts, tile_size_of(ts))).map_values(
            |t: (u32, u32, u64)| (t.1, t.2),
        ),
        None => seq![],
    }
}

/// The table model an object decodes to: a type-6001 object with an
/// identifier and a payload that decodes.
pub open spec fn spec_table_model(o: ObjectView) -> Option<TableModelView> {
    if o.message_type != Some(TABLE_MODEL_TYPE) {
        None
    } else {
        match (o.identifier, payload_fields(o)) {
            (Some(id), Some(fs)) => {
                let ds = nested_fields(fs, 4);
                Some(
                    TableModelView {
                        id,
                        uuid: text_of(fs, 1),
                        name: text_of(fs, 8),
                        row_count: count_of(fs, 6),
                        column_count: count_of(fs, 7),
                        header_row_count: clamped(count_of(fs, 9), count_of(fs, 6)),
                        header_column_count: clamped(count_of(fs, 10), count_of(fs, 7)),
                        tiles: match ds {
                            Some(d) => spec_tiles(d),
                            None => seq![],
                        },
                        string_data_list_id: match ds {
                            Some(d) => reference_id(nested_fields(d, 4)),
                            None => None,
                        },
                    },
                )
            },
            _ => None,
        }
    }
}

/// The table models of a sequence of objects, in order.
pub open spec fn spec_table_models(objs: Seq<ObjectView>) -> Seq<TableModelView>
    decreases objs.len(),
{
    if objs.len() == 0 {
        seq![]
    } else {
        let rest = spec_table_models(objs.drop_last());
        match spec_table_model(objs.last()) {
            Some(m) => rest.push(m),
            None => rest,
        }
    }
}

fn count_field(m: &ProtoMessage, n: u32) -> (r: u32)
    ensures
        r == count_of(m@, n),
{
    match field_varint(m, n) {
        Some(v) => if v <= 0xffff_ffff {
            v as u32
        } else {
            0
        },
        None => 0,
    }
}

fn reference_of(m: &ProtoMessage, n: u32) -> (r: Option<u64>)
    ensures
        r == reference_id(nested_fields(m@, n)),
{
    match nested_message_of(m, n) {
        Some(x) => field_varint(&x, 1),
        None => None,
    }
}

fn tile_from_field(f: &ProtoField, tile_size: u32) -> (r: Option<(u32, u32, u64)>)
    ensures
        r == tile_entry(f@, tile_size),
{
    let b = match &f.value {
        ProtoValue::LengthDelimited(b) => b,
        _ => return None,
    };
    let e = match ProtoMessage::decode(b.as_slice()) {
        Ok(e) => e,
        Err(_) => return None,
    };
    let index = count_field(&e, 1);
    let id = match reference_of(&e, 2) {
        Some(id) => id,
        None => return None,
    };
    let offset = index.checked_mul(tile_size).unwrap_or(0xffff_ffff);
    Some((index, offset, id))
}

fn insert_tile(xs: &mut Vec<(u32, u32, u64)>, x: (u32, u32, u64))
    ensures
        final(xs)@ == insert_by_index(old(xs)@, x, 0),
{
    let ghost s = xs@;
    let mut j: usize = 0;
    while j < xs.len()
        invariant
            j <= xs@.len(),
            s == xs@,
            s == old(xs)@,
            insert_by_index(s, x, 0) == insert_by_index(s, x, j as int),
        decreases xs.len() - j,
    {
        if x.0 < xs[j].0 {
            xs.insert(j, x);
            return;
        }
        j = j + 1;
    }
    xs.push(x);
}

fn decode_tiles(data_store: &ProtoMessage) -> (r: (Vec<u32>, Vec<u64>))
    ensures
        r.0@.len() == r.1@.len(),
        Seq::new(r.1@.len(), |i: int| (r.0@[i], r.1@[i])) == spec_tiles(data_store@),
{
    let ts = match nested_message_of(data_store, 3) {
        Some(ts) => ts,
        None => {
            let o: Vec<u32> = Vec::new();
            let t: Vec<u64> = Vec::new();
            assert(Seq::new(0, |i: int| (o@[i], t@[i])) =~= Seq::<(u32, u64)>::empty());
            return (o, t);
        },
    };
    let tile_size = match field_varint(&ts, 2) {
        Some(v) => if 0 < v && v <= 0xffff_ffff {
            v as u32
        } else {
            DEFAULT_TILE_SIZE
        },
        None => DEFAULT_TILE_SIZE,
    };
    let fields = ts.fields();
    let ghost fs = ts@;
    let mut sorted: Vec<(u32, u32, u64)> = Vec::new();
    let mut i: usize = 0;
    while i < fields.len()
        invariant
            i <= fields@.len(),
            fs == ts@,
            fields@.map_values(|f: ProtoField| f@) == fs,
            sorted@ == sort_by_index(tile_entries(fs.take(i as int), tile_size)),
        decreases fields.len() - i,
    {
        assert(fs.take(i + 1).drop_last() =~= fs.take(i as int));
        assert(fs.take(i + 1).last() == fields@[i as int]@);
        if fields[i].number == 1 {
            if let Some(t) = tile_from_field(&fields[i], tile_size) {
                let ghost before = tile_entries(fs.take(i as int), tile_size);
                assert(tile_entries(fs.take(i + 1), tile_size) == before.push(t));
                assert(before.push(t).drop_last() =~= before);
                insert_tile(&mut sorted, t);
            }
        }
        i = i + 1;
    }
    assert(fs.take(fields@.len() as int) =~= fs);
    let ghost target = sorted@.map_values(|t: (u32, u32, u64)| (t.1, t.2));
    let mut offsets: Vec<u32> = Vec::new();
    let mut ids: Vec<u64> = Vec::new();
    let mut k: usize = 0;
    while k < sorted.len()
        invariant
            k <= sorted@.len(),
            offsets@.len() == k,
            ids@.len() == k,
            target == sorted@.map_values(|t: (u32, u32, u64)| (t.1, t.2)),
            forall|j: int| 0 <= j < k ==> (offsets@[j], ids@[j]) == target[j],
        decreases sorted.len() - k,
    {
        offsets.push(sorted[k].1);
        ids.push(sorted[k].2);
        k = k + 1;
    }
    assert(Seq::new(ids@.len(), |i: int| (offsets@[i], ids@[i])) =~= target);
    (offsets, ids)
}

/// The view of an optional table model.
pub open spec fn opt_model_view(m: Option<TableModel>) -> Option<TableModelView> {
    match m {
        Some(x) => Some(x@),
        None => None,
    }
}

impl TableModel {
    /// Decodes an object as a table model (see [`spec_table_model`]).
    pub fn from_object(object: &IwaObject) -> (r: Option<TableModel>)
        ensures
            opt_model_view(r) == spec_table_model(object@),
    {
        if object.message_type != Some(TABLE_MODEL_TYPE) {
            return None;
        }
        let id = match object.identifier {
            Some(id) => id,
            None => return None,
        };
        let m = match decode_payload(object) {
            Some(m) => m,
            None => return None,
        };
        let (tile_row_offsets, tile_ids, string_data_list_id) = match nested_message_of(&m, 4) {
            Some(ds) => {
                let (o, t) = decode_tiles(&ds);
                (o, t, reference_of(&ds, 4))
            },
            None => {
                let o: Vec<u32> = Vec::new();
                let t: Vec<u64> = Vec::new();
                assert(Seq::new(0, |i: int| (o@[i], t@[i])) =~= Seq::<(u32, u64)>::empty());
                (o, t, None)
            },
        };
        Some(
            TableModel {
                id,
                uuid: opt_utf8_string(field_bytes(&m, 1)),
                name: opt_utf8_string(field_bytes(&m, 8)),
                row_count: count_field(&m, 6),
                column_count: count_field(&m, 7),
                header_row_count: clamp_to(count_field(&m, 9), count_field(&m, 6)),
                header_column_count: clamp_to(count_field(&m, 10), count_field(&m, 7)),
                tile_ids,
                tile_row_offsets,
                string_data_list_id,
            },
        )
    }

    /// Decodes the table models among `objects`, in order.
    pub fn collect(objects: &Vec<IwaObject>) -> (r: Vec<TableModel>)
        ensures
            r@.map_values(|m: TableModel| m@) == spec_table_models(objects@.map_values(|o: IwaObject| o@)),
    {
        let ghost all = objects@.map_values(|o: IwaObject| o@);
        let mut out: Vec<TableModel> = Vec::new();
        let mut i: usize = 0;
        while i < objects.len()
            invariant
                i <= objects@.len(),
                all == objects@.map_values(|o: IwaObject| o@),
                out@.map_values(|m: TableModel| m@) == spec_table_models(all.take(i as int)),
            decreases objects.len() - i,
        {
            assert(all.take(i + 1).drop_last() =~= all.take(i as int));
            assert(all.take(i + 1).last() == objects@[i as int]@);
            let ghost before = out@.map_values(|m: TableModel| m@);
            if let Some(m) = TableModel::from_object(&objects[i]) {
                out.push(m);
                assert(out@.map_values(|m: TableModel| m@) =~= before.push(m@));
            }
            i = i + 1;
        }
        assert(all.take(objects@.len() as int) =~= all);
        out
    }

    /// The model object's identifier within the package.
    pub fn id(&self) -> (r: u64)
        ensures
            r == self@.id,
    {
        self.id
    }

    /// The table's UUID string, if present.
    pub fn uuid(&self) -> (r: Option<&str>)
        ensures
            opt_str_view(r) == self@.uuid,
    {
        match &self.uuid {
            Some(s) => Some(s.as_str()),
            None => None,
        }
    }

    /// The table's display name, if present.
    pub fn name(&self) -> (r: Option<&str>)
        ensures
            opt_str_view(r) == self@.name,
    {
        match &self.name {
            Some(s) => Some(s.as_str()),
            None => None,
        }
    }

    /// Total number of rows in the table grid (header rows included).
    pub fn row_count(&self) -> (r: u32)
        ensures
            r == self@.row_count,
    {
        self.row_count
    }

    /// Total number of columns in the table grid (header columns included).
    pub fn column_count(&self) -> (r: u32)
        ensures
            r == self@.column_count,
    {
        self.column_count
    }

    /// Number of header rows banding the top of the table (field 9, never
    /// more than the row count).
    pub fn header_row_count(&self) -> (r: u32)
        ensures
            r == self@.header_row_count,
            r <= self@.row_count,
    {
        proof {
            use_type_invariant(self);
        }
        self.header_row_count
    }

    /// Number of header columns banding the left of the table (field 10,
    /// never more than the column count).
    pub fn header_column_count(&self) -> (r: u32)
        ensures
            r == self@.header_column_count,
            r <= self@.column_count,
    {
        proof {
            use_type_invariant(self);
        }
        self.header_column_count
    }

    /// Identifiers of the table's tiles, in tile-index order.
    pub fn tile_ids(&self) -> (r: &[u64])
        ensures
            r@ == self@.tiles.map_values(|t: (u32, u64)| t.1),
    {
        let r = self.tile_ids.as_slice();
        assert(r@ =~= self@.tiles.map_values(|t: (u32, u64)| t.1));
        r
    }

    /// The first row of each tile, in tile-index order.
    pub fn tile_row_offsets(&self) -> (r: &[u32])
        ensures
            r@ == self@.tiles.map_values(|t: (u32, u64)| t.0),
    {
        proof {
            use_type_invariant(self);
        }
        let r = self.tile_row_offsets.as_slice();
        assert(r@ =~= self@.tiles.map_values(|t: (u32, u64)| t.0));
        r
    }

    /// Identifier of the list resolving the table's string cells.
    pub fn string_data_list_id(&self) -> (r: Option<u64>)
        ensures
            r == self@.string_data_list_id,
    {
        self.string_data_list_id
    }
}

} // verus!
