//! The rows of a table model: the cell records of its tiles, in tile order,
//! each row placed at its tile's first row, text cells resolved through the
//! model's own string list so that string keys of other tables never
//! collide.
use crate::iwa::IwaArchive;
use crate::numbers::catalog::archive_by_root;
use crate::numbers::cell::{decode_cell_record, spec_cell_record, CellRecord, CellRecordView};
use crate::iwa::{leading_len, ArchiveView};
use crate::numbers::datalist::{
    datalist_scan, decode_string_datalist, decode_string_datalist_into, spec_string_datalist, string_map_view,
};
use crate::numbers::spreadsheet::TableArchive;
use crate::text::{chars_contain, chars_of, has_infix};
use crate::numbers::spreadsheet::{Spreadsheet, SpreadsheetView};
use crate::numbers::table_model::{TableModel, TableModelView};
use crate::numbers::tile::{decode_raw_rows, opt_bytes, spec_raw_rows, RawRow, RawRowView};
use std::collections::HashMap;
use vstd::prelude::*;

verus! {

/// A cell with its text looked up.
#[derive(Debug, Clone, PartialEq, Eq)]
pub enum ResolvedCell {
    Empty,
    Bool(bool),
    /// The bits of the seconds since 2001-01-01 UTC.
    Date(u64),
    /// The bits of the seconds.
    Duration(u64),
    Error,
    /// The bits of the double.
    Number(u64),
    /// The sixteen bytes of a decimal128.
    Decimal(Vec<u8>),
    Text(String),
}

/// The mathematical content of a [`ResolvedCell`].
pub enum ResolvedCellView {
    Empty,
    Bool(bool),
    Date(u64),
    Duration(u64),
    Error,
    Number(u64),
    Decimal(Seq<u8>),
    Text(Seq<char>),
}

impl View for ResolvedCell {
    type V = ResolvedCellView;

    open spec fn view(&self) -> ResolvedCellView {
        match self {
            ResolvedCell::Empty => ResolvedCellView::Empty,
            ResolvedCell::Bool(b) => ResolvedCellView::Bool(*b),
            ResolvedCell::Date(x) => ResolvedCellView::Date(*x),
            ResolvedCell::Duration(x) => ResolvedCellView::Duration(*x),
            ResolvedCell::Error => ResolvedCellView::Error,
            ResolvedCell::Number(x) => ResolvedCellView::Number(*x),
            ResolvedCell::Decimal(b) => ResolvedCellView::Decimal(b@),
            ResolvedCell::Text(s) => ResolvedCellView::Text(s@),
        }
    }
}

/// A row of resolved cells at its absolute row index.
#[derive(Debug, Clone, PartialEq, Eq)]
pub struct ResolvedRow {
    pub index: u64,
    pub cells: Vec<ResolvedCell>,
}

/// The mathematical content of a [`ResolvedRow`].
pub struct ResolvedRowView {
    pub index: u64,
    pub cells: Seq<ResolvedCellView>,
}

impl View for ResolvedRow {
    type V = ResolvedRowView;

    open spec fn view(&self) -> ResolvedRowView {
        ResolvedRowView { index: self.index, cells: self.cells@.map_values(|c: ResolvedCell| c@) }
    }
}

/// A cell record with its text key looked up in `strings`; a key the list
/// does not hold gives an empty cell.
pub open spec fn resolved(c: CellRecordView, strings: Map<u32, Seq<char>>) -> ResolvedCellView {
    match c {
        CellRecordView::Empty => ResolvedCellView::Empty,
        CellRecordView::Bool(b) => ResolvedCellView::Bool(b),
        CellRecordView::Date(x) => ResolvedCellView::Date(x),
        CellRecordView::Duration(x) => ResolvedCellView::Duration(x),
        CellRecordView::Error => ResolvedCellView::Error,
        CellRecordView::Number(x) => ResolvedCellView::Number(x),
        CellRecordView::Decimal(b) => ResolvedCellView::Decimal(b),
        CellRecordView::Text(k) => if strings.contains_key(k) {
            ResolvedCellView::Text(strings[k])
        } else {
            ResolvedCellView::Empty
        },
    }
}

/// A raw cell slot resolved: an empty slot is an empty cell.
pub open spec fn resolved_slot(c: Option<Seq<u8>>, strings: Map<u32, Seq<char>>) -> ResolvedCellView {
    match c {
        Some(rec) => resolved(spec_cell_record(rec), strings),
        None => ResolvedCellView::Empty,
    }
}

/// `a + b`, or the largest `u64` where that overflows.
pub open spec fn saturating_add(a: u64, b: u64) -> u64 {
    if a + b > u64::MAX {
        u64::MAX
    } else {
        (a + b) as u64
    }
}

/// A raw row resolved and moved down by `offset` rows.
pub open spec fn resolved_row(r: RawRowView, strings: Map<u32, Seq<char>>, offset: u32) -> ResolvedRowView {
    ResolvedRowView {
        index: saturating_add(offset as u64, r.index),
        cells: r.cells.map_values(|c: Option<Seq<u8>>| resolved_slot(c, strings)),
    }
}

/// The string list of a table model: that of the table archive its string
/// list id names, or none.
pub open spec fn model_strings(s: SpreadsheetView, m: TableModelView) -> Map<u32, Seq<char>> {
    match m.string_data_list_id {
        Some(id) => match archive_by_root(s.table_archives, id) {
            Some(a) => spec_string_datalist(a.body),
            None => Map::empty(),
        },
        None => Map::empty(),
    }
}

/// The rows of the tiles `tiles` (pairs of first row and tile id), in order;
/// a tile whose archive is missing gives no rows.
pub open spec fn tiles_rows(
    s: SpreadsheetView,
    tiles: Seq<(u32, u64)>,
    strings: Map<u32, Seq<char>>,
) -> Seq<ResolvedRowView>
    decreases tiles.len(),
{
    if tiles.len() == 0 {
        seq![]
    } else {
        let (offset, id) = tiles.last();
        tiles_rows(s, tiles.drop_last(), strings) + match archive_by_root(s.table_archives, id) {
            Some(a) => spec_raw_rows(a.body).map_values(|r: RawRowView| resolved_row(r, strings, offset)),
            None => seq![],
        }
    }
}

/// The rows of a table model.
pub open spec fn spec_table_rows(s: SpreadsheetView, m: TableModelView) -> Seq<ResolvedRowView> {
    tiles_rows(s, m.tiles, model_strings(s, m))
}

fn resolve_cell(rec: &Option<Vec<u8>>, strings: &HashMap<u32, String>) -> (r: ResolvedCell)
    ensures
        r@ == resolved_slot(opt_bytes(*rec), string_map_view(strings@)),
{
    broadcast use vstd::std_specs::hash::group_hash_axioms;

    match rec {
        None => ResolvedCell::Empty,
        Some(bytes) => match decode_cell_record(bytes.as_slice()) {
            CellRecord::Empty => ResolvedCell::Empty,
            CellRecord::Bool(b) => ResolvedCell::Bool(b),
            CellRecord::Date(x) => ResolvedCell::Date(x),
            CellRecord::Duration(x) => ResolvedCell::Duration(x),
            CellRecord::Error => ResolvedCell::Error,
            CellRecord::Number(x) => ResolvedCell::Number(x),
            CellRecord::Decimal(b) => ResolvedCell::Decimal(b),
            CellRecord::Text(k) => match strings.get(&k) {
                Some(t) => ResolvedCell::Text(t.clone()),
                None => ResolvedCell::Empty,
            },
        },
    }
}

fn resolve_row(row: &RawRow, strings: &HashMap<u32, String>, offset: u32) -> (r: ResolvedRow)
    ensures
        r@ == resolved_row(row@, string_map_view(strings@), offset),
{
    let ghost m = string_map_view(strings@);
    let mut cells: Vec<ResolvedCell> = Vec::new();
    let mut i: usize = 0;
    while i < row.cells.len()
        invariant
            i <= row.cells@.len(),
            m == string_map_view(strings@),
            cells@.map_values(|c: ResolvedCell| c@) == row@.cells.take(i as int).map_values(
                |c: Option<Seq<u8>>| resolved_slot(c, m),
            ),
        decreases row.cells.len() - i,
    {
        let c = resolve_cell(&row.cells[i], strings);
        let ghost before = cells@.map_values(|c: ResolvedCell| c@);
        cells.push(c);
        assert(row@.cells[i as int] == opt_bytes(row.cells@[i as int]));
        assert(row@.cells.take(i + 1) =~= row@.cells.take(i as int).push(row@.cells[i as int]));
        assert(cells@.map_values(|c: ResolvedCell| c@) =~= before.push(c@));
        i = i + 1;
    }
    assert(row@.cells.take(i as int) =~= row@.cells);
    let index = match (offset as u64).checked_add(row.index) {
        Some(x) => x,
        None => u64::MAX,
    };
    ResolvedRow { index, cells }
}

impl Spreadsheet {
    /// The rows of a table model (see [`spec_table_rows`]): its tiles' rows
    /// in tile order, each at its tile's first row plus its own index
    /// (saturating), text resolved through the model's string list.
    pub fn table_rows(&self, model: &TableModel) -> (r: Vec<ResolvedRow>)
        ensures
            r@.map_values(|x: ResolvedRow| x@) == spec_table_rows(self@, model@),
    {
        let strings = match model.string_data_list_id() {
            Some(id) => match self.archive_by_root(id) {
                Some(a) => decode_string_datalist(a),
                None => HashMap::new(),
            },
            None => HashMap::new(),
        };
        let ghost m = model_strings(self@, model@);
        proof {
            broadcast use vstd::std_specs::hash::group_hash_axioms;
            if model@.string_data_list_id is None || archive_by_root(self@.table_archives, model@.string_data_list_id->Some_0) is None {
                assert(string_map_view(strings@) =~= Map::<u32, Seq<char>>::empty());
            }
        }
        assert(string_map_view(strings@) == m);
        let ids = model.tile_ids();
        let offsets = model.tile_row_offsets();
        let ghost tiles = model@.tiles;
        let mut rows: Vec<ResolvedRow> = Vec::new();
        let mut t: usize = 0;
        assert(tiles.take(0) =~= Seq::<(u32, u64)>::empty());
        while t < ids.len()
            invariant
                t <= ids@.len(),
                ids@ == tiles.map_values(|x: (u32, u64)| x.1),
                offsets@ == tiles.map_values(|x: (u32, u64)| x.0),
                tiles == model@.tiles,
                m == string_map_view(strings@),
                rows@.map_values(|x: ResolvedRow| x@) == tiles_rows(self@, tiles.take(t as int), m),
            decreases ids.len() - t,
        {
            assert(tiles.take(t + 1).drop_last() =~= tiles.take(t as int));
            assert(tiles.take(t + 1).last() == tiles[t as int]);
            let id = ids[t];
            let offset = offsets[t];
            if let Some(tile) = self.archive_by_root(id) {
                let raw = decode_raw_rows(tile);
                let ghost rv = raw@.map_values(|x: RawRow| x@);
                let mut k: usize = 0;
                let ghost before = rows@.map_values(|x: ResolvedRow| x@);
                while k < raw.len()
                    invariant
                        k <= raw@.len(),
                        rv == raw@.map_values(|x: RawRow| x@),
                        m == string_map_view(strings@),
                        rows@.map_values(|x: ResolvedRow| x@) == before + rv.take(k as int).map_values(
                            |r: RawRowView| resolved_row(r, m, offset),
                        ),
                    decreases raw.len() - k,
                {
                    let row = resolve_row(&raw[k], &strings, offset);
                    let ghost prev = rows@.map_values(|x: ResolvedRow| x@);
                    rows.push(row);
                    assert(rv[k as int] == raw@[k as int]@);
                    assert(rv.take(k + 1) =~= rv.take(k as int).push(rv[k as int]));
                    assert(rows@.map_values(|x: ResolvedRow| x@) =~= prev.push(row@));
                    assert(before + rv.take(k + 1).map_values(|r: RawRowView| resolved_row(r, m, offset)) =~= (before
                        + rv.take(k as int).map_values(|r: RawRowView| resolved_row(r, m, offset))).push(
                        resolved_row(rv[k as int], m, offset),
                    ));
                    k = k + 1;
                }
                assert(rv.take(k as int) =~= rv);
            } else {
                assert(rows@.map_values(|x: ResolvedRow| x@) =~= rows@.map_values(|x: ResolvedRow| x@) + Seq::<ResolvedRowView>::empty());
            }
            t = t + 1;
        }
        assert(tiles.take(t as int) =~= tiles);
        rows
    }
}

/// The strings of every `DataList` archive among `ts`, in order, an entry of
/// a later list replacing one of an earlier list with its key.
pub open spec fn merged_strings(ts: Seq<(Seq<char>, ArchiveView)>) -> Map<u32, Seq<char>>
    decreases ts.len(),
{
    if ts.len() == 0 {
        Map::empty()
    } else {
        let acc = merged_strings(ts.drop_last());
        let (p, a) = ts.last();
        if has_infix(p, "DataList"@) {
            datalist_scan(a.body, leading_len(a.body, 0), acc)
        } else {
            acc
        }
    }
}

/// The rows of every `Tile` archive among `ts`, in order, one table each, at
/// their own row indices.
pub open spec fn tile_tables(ts: Seq<(Seq<char>, ArchiveView)>, strings: Map<u32, Seq<char>>) -> Seq<
    Seq<ResolvedRowView>,
>
    decreases ts.len(),
{
    if ts.len() == 0 {
        seq![]
    } else {
        let rest = tile_tables(ts.drop_last(), strings);
        let (p, a) = ts.last();
        if has_infix(p, "Tile"@) {
            rest.push(spec_raw_rows(a.body).map_values(|r: RawRowView| resolved_row(r, strings, 0)))
        } else {
            rest
        }
    }
}

/// The tables of all tile archives of a spreadsheet, with text resolved
/// through all its string lists.
pub open spec fn spec_tile_tables(s: SpreadsheetView) -> Seq<Seq<ResolvedRowView>> {
    tile_tables(s.table_archives, merged_strings(s.table_archives))
}

fn resolve_tile(tile: &IwaArchive, strings: &HashMap<u32, String>, offset: u32) -> (r: Vec<ResolvedRow>)
    ensures
        r@.map_values(|x: ResolvedRow| x@) == spec_raw_rows(tile@.body).map_values(
            |r: RawRowView| resolved_row(r, string_map_view(strings@), offset),
        ),
{
    let ghost m = string_map_view(strings@);
    let raw = decode_raw_rows(tile);
    let ghost rv = raw@.map_values(|x: RawRow| x@);
    let mut rows: Vec<ResolvedRow> = Vec::new();
    let mut k: usize = 0;
    assert(rv.take(0).map_values(|r: RawRowView| resolved_row(r, m, offset)) =~= Seq::<ResolvedRowView>::empty());
    while k < raw.len()
        invariant
            k <= raw@.len(),
            rv == raw@.map_values(|x: RawRow| x@),
            m == string_map_view(strings@),
            rows@.map_values(|x: ResolvedRow| x@) == rv.take(k as int).map_values(
                |r: RawRowView| resolved_row(r, m, offset),
            ),
        decreases raw.len() - k,
    {
        let row = resolve_row(&raw[k], strings, offset);
        let ghost prev = rows@.map_values(|x: ResolvedRow| x@);
        rows.push(row);
        assert(rv[k as int] == raw@[k as int]@);
        assert(rv.take(k + 1) =~= rv.take(k as int).push(rv[k as int]));
        assert(rows@.map_values(|x: ResolvedRow| x@) =~= prev.push(row@));
        k = k + 1;
    }
    assert(rv.take(k as int) =~= rv);
    rows
}

impl Spreadsheet {
    /// The tables of all tile archives, in path order (see
    /// [`spec_tile_tables`]): each tile's rows at their own indices, text
    /// resolved through the strings of every `DataList` archive.
    pub fn tile_tables(&self) -> (r: Vec<Vec<ResolvedRow>>)
        ensures
            r@.map_values(|t: Vec<ResolvedRow>| t@.map_values(|x: ResolvedRow| x@)) == spec_tile_tables(self@),
    {
        let ts = self.table_archives();
        let ghost tv = ts@.map_values(|t: TableArchive| t@);
        let data_list = chars_of("DataList");
        let tile_word = chars_of("Tile");
        let mut strings: HashMap<u32, String> = HashMap::new();
        let mut i: usize = 0;
        assert(string_map_view(strings@) =~= Map::<u32, Seq<char>>::empty());
        assert(tv.take(0) =~= Seq::<(Seq<char>, ArchiveView)>::empty());
        while i < ts.len()
            invariant
                i <= ts@.len(),
                tv == ts@.map_values(|t: TableArchive| t@),
                tv == self@.table_archives,
                data_list@ == "DataList"@,
                string_map_view(strings@) == merged_strings(tv.take(i as int)),
            decreases ts.len() - i,
        {
            assert(tv.take(i + 1).drop_last() =~= tv.take(i as int));
            assert(tv.take(i + 1).last() == ts@[i as int]@);
            let path = chars_of(ts[i].path());
            if chars_contain(path.as_slice(), data_list.as_slice()) {
                decode_string_datalist_into(ts[i].archive(), &mut strings);
            }
            i = i + 1;
        }
        assert(tv.take(i as int) =~= tv);
        let ghost m = string_map_view(strings@);
        let mut tables: Vec<Vec<ResolvedRow>> = Vec::new();
        let mut j: usize = 0;
        while j < ts.len()
            invariant
                j <= ts@.len(),
                tv == ts@.map_values(|t: TableArchive| t@),
                tv == self@.table_archives,
                tile_word@ == "Tile"@,
                m == string_map_view(strings@),
                m == merged_strings(tv),
                tables@.map_values(|t: Vec<ResolvedRow>| t@.map_values(|x: ResolvedRow| x@)) == tile_tables(
                    tv.take(j as int),
                    m,
                ),
            decreases ts.len() - j,
        {
            assert(tv.take(j + 1).drop_last() =~= tv.take(j as int));
            assert(tv.take(j + 1).last() == ts@[j as int]@);
            let path = chars_of(ts[j].path());
            if chars_contain(path.as_slice(), tile_word.as_slice()) {
                let rows = resolve_tile(ts[j].archive(), &strings, 0);
                let ghost prev = tables@.map_values(|t: Vec<ResolvedRow>| t@.map_values(|x: ResolvedRow| x@));
                let ghost rv = rows@.map_values(|x: ResolvedRow| x@);
                tables.push(rows);
                assert(tables@.map_values(|t: Vec<ResolvedRow>| t@.map_values(|x: ResolvedRow| x@)) =~= prev.push(rv));
            }
            j = j + 1;
        }
        assert(tv.take(j as int) =~= tv);
        tables
    }
}

} // verus!
