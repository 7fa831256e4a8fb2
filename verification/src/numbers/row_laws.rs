//! Laws of table rows: where each row of a table model's tiles lands, and
//! the index it is given.
use crate::numbers::catalog::archive_by_root;
use crate::numbers::rows::{resolved_slot, spec_table_rows, tiles_rows, model_strings, ResolvedRowView};
use crate::numbers::spreadsheet::SpreadsheetView;
use crate::numbers::table_model::TableModelView;
use crate::numbers::tile::{spec_raw_rows, RawRowView};
use vstd::prelude::*;

verus! {

/// The raw rows of the tile with id `id` of a spreadsheet; none when no
/// table archive has that root object.
pub open spec fn tile_raw_rows(s: SpreadsheetView, id: u64) -> Seq<RawRowView> {
    match archive_by_root(s.table_archives, id) {
        Some(a) => spec_raw_rows(a.body),
        None => seq![],
    }
}

/// How many raw rows the tiles `tiles` hold together.
pub open spec fn raw_row_count(s: SpreadsheetView, tiles: Seq<(u32, u64)>) -> nat
    decreases tiles.len(),
{
    if tiles.len() == 0 {
        0
    } else {
        raw_row_count(s, tiles.drop_last()) + tile_raw_rows(s, tiles.last().1).len()
    }
}

/// `offset + index`, or the largest `u64` where that overflows.
pub open spec fn offset_index(offset: u32, index: u64) -> u64 {
    if offset as int + index as int > u64::MAX as int {
        u64::MAX
    } else {
        (offset as int + index as int) as u64
    }
}

proof fn lemma_tiles_rows_place(
    s: SpreadsheetView,
    tiles: Seq<(u32, u64)>,
    strings: Map<u32, Seq<char>>,
    t: int,
    k: int,
)
    requires
        0 <= t < tiles.len(),
        0 <= k < tile_raw_rows(s, tiles[t].1).len(),
    ensures
        tiles_rows(s, tiles, strings).len() == raw_row_count(s, tiles),
        raw_row_count(s, tiles.take(t)) + k < tiles_rows(s, tiles, strings).len(),
        ({
            let row = tiles_rows(s, tiles, strings)[raw_row_count(s, tiles.take(t)) + k];
            let raw = tile_raw_rows(s, tiles[t].1)[k];
            &&& row.index == offset_index(tiles[t].0, raw.index)
            &&& row.cells == raw.cells.map_values(|c: Option<Seq<u8>>| resolved_slot(c, strings))
        }),
    decreases tiles.len(),
{
    let init = tiles.drop_last();
    let (offset, id) = tiles.last();
    let before = tiles_rows(s, init, strings);
    let added = match archive_by_root(s.table_archives, id) {
        Some(a) => spec_raw_rows(a.body).map_values(|r: RawRowView| crate::numbers::rows::resolved_row(r, strings, offset)),
        None => seq![],
    };
    assert(tiles_rows(s, tiles, strings) == before + added);
    assert(added.len() == tile_raw_rows(s, id).len());
    if t == tiles.len() - 1 {
        assert(tiles.take(t) =~= init);
        if init.len() > 0 {
            lemma_tiles_rows_len(s, init, strings);
        } else {
            assert(before.len() == 0);
        }
        let p = raw_row_count(s, init) + k;
        assert((before + added)[p] == added[k]);
    } else {
        assert(init[t] == tiles[t]);
        lemma_tiles_rows_place(s, init, strings, t, k);
        assert(init.take(t) =~= tiles.take(t));
        let p = raw_row_count(s, tiles.take(t)) + k;
        assert((before + added)[p] == before[p]);
    }
}

proof fn lemma_tiles_rows_len(s: SpreadsheetView, tiles: Seq<(u32, u64)>, strings: Map<u32, Seq<char>>)
    ensures
        tiles_rows(s, tiles, strings).len() == raw_row_count(s, tiles),
    decreases tiles.len(),
{
    if tiles.len() > 0 {
        lemma_tiles_rows_len(s, tiles.drop_last(), strings);
    }
}

/// Law: the rows of a table model are the raw rows of its tiles, tile after
/// tile, each tile's rows moved down by that tile's first-row offset: the
/// `k`-th raw row of the `t`-th tile comes right after the rows of the tiles
/// before it, at index `offset + its own index` (the largest index where
/// that overflows), with its cells resolved through the model's string list.
pub proof fn lemma_table_rows_offsets(s: SpreadsheetView, m: TableModelView, t: int, k: int)
    requires
        0 <= t < m.tiles.len(),
        0 <= k < tile_raw_rows(s, m.tiles[t].1).len(),
    ensures
        spec_table_rows(s, m).len() == raw_row_count(s, m.tiles),
        raw_row_count(s, m.tiles.take(t)) + k < spec_table_rows(s, m).len(),
        ({
            let row = spec_table_rows(s, m)[raw_row_count(s, m.tiles.take(t)) + k];
            let raw = tile_raw_rows(s, m.tiles[t].1)[k];
            &&& row.index == offset_index(m.tiles[t].0, raw.index)
            &&& row.cells == raw.cells.map_values(|c: Option<Seq<u8>>| resolved_slot(c, model_strings(s, m)))
        }),
{
    lemma_tiles_rows_place(s, m.tiles, model_strings(s, m), t, k);
}

} // verus!
