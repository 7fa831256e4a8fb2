//! The join between cell records and formula records: the formula ids that
//! cached formula-result cells carry, resolved to the calculation engine's
//! type-4008 records.
use crate::numbers::catalog::{
    archive_by_root, first_formula, index_of_formula, opt_formula_view, insert_formula, insert_formula_vec, models_for_ids,
    sort_formulas, spec_formulas, spec_models,
};
use crate::numbers::cell::{cell_formula_id, spec_formula_id};
use crate::numbers::formula::{FormulaRecord, FormulaView};
use crate::numbers::sheet::Sheet;
use crate::numbers::spreadsheet::{Spreadsheet, SpreadsheetView};
use crate::numbers::table_model::{TableModel, TableModelView};
use crate::numbers::tile::{decode_raw_rows, opt_bytes, spec_raw_rows, RawRow, RawRowView};
use vstd::prelude::*;

verus! {

/// The formula ids of a row's cells, in column order.
pub open spec fn cell_fids(cells: Seq<Option<Seq<u8>>>) -> Seq<u32>
    decreases cells.len(),
{
    if cells.len() == 0 {
        seq![]
    } else {
        cell_fids(cells.drop_last()) + match cells.last() {
            Some(rec) => match spec_formula_id(rec) {
                Some(f) => seq![f],
                None => seq![],
            },
            None => seq![],
        }
    }
}

/// The formula ids of rows, row by row.
pub open spec fn row_fids(rows: Seq<RawRowView>) -> Seq<u32>
    decreases rows.len(),
{
    if rows.len() == 0 {
        seq![]
    } else {
        row_fids(rows.drop_last()) + cell_fids(rows.last().cells)
    }
}

/// The formula ids of the cells of the tiles `tiles`, in tile order.
pub open spec fn tiles_fids(s: SpreadsheetView, tiles: Seq<(u32, u64)>) -> Seq<u32>
    decreases tiles.len(),
{
    if tiles.len() == 0 {
        seq![]
    } else {
        tiles_fids(s, tiles.drop_last()) + match archive_by_root(s.table_archives, tiles.last().1) {
            Some(a) => row_fids(spec_raw_rows(a.body)),
            None => seq![],
        }
    }
}

/// The records that formula ids resolve to, in order; an id without a record
/// is skipped.
pub open spec fn records_for(fs: Seq<FormulaView>, ids: Seq<u32>) -> Seq<FormulaView>
    decreases ids.len(),
{
    if ids.len() == 0 {
        seq![]
    } else {
        records_for(fs, ids.drop_last()) + match first_formula(fs, ids.last()) {
            Some(r) => seq![r],
            None => seq![],
        }
    }
}

/// Records with each run of equal formula ids cut to its first.
pub open spec fn dedup_formulas(xs: Seq<FormulaView>) -> Seq<FormulaView>
    decreases xs.len(),
{
    if xs.len() == 0 {
        seq![]
    } else {
        let r = dedup_formulas(xs.drop_last());
        if r.len() > 0 && r.last().formula_id == xs.last().formula_id {
            r
        } else {
            r.push(xs.last())
        }
    }
}

/// The formula records the cells of a table model reference, sorted by
/// formula id, each once.
pub open spec fn spec_model_formula_records(s: SpreadsheetView, m: TableModelView) -> Seq<FormulaView> {
    dedup_formulas(sort_formulas(records_for(spec_formulas(s), tiles_fids(s, m.tiles))))
}

/// The records of each model in turn.
pub open spec fn models_records(s: SpreadsheetView, ms: Seq<TableModelView>) -> Seq<FormulaView>
    decreases ms.len(),
{
    if ms.len() == 0 {
        seq![]
    } else {
        models_records(s, ms.drop_last()) + spec_model_formula_records(s, ms.last())
    }
}

/// The formula records the tables of a sheet reference, sorted by formula id,
/// each once.
pub open spec fn spec_sheet_formula_records(s: SpreadsheetView, ids: Seq<u64>) -> Seq<FormulaView> {
    dedup_formulas(sort_formulas(models_records(s, models_for_ids(spec_models(s), ids))))
}

fn push_cell_fids(out: &mut Vec<u32>, row: &RawRow)
    ensures
        final(out)@ == old(out)@ + cell_fids(row@.cells),
{
    let ghost start = out@;
    let mut i: usize = 0;
    assert(row@.cells.take(0) =~= Seq::<Option<Seq<u8>>>::empty());
    assert(out@ =~= start + cell_fids(row@.cells.take(0)));
    while i < row.cells.len()
        invariant
            i <= row.cells@.len(),
            out@ == start + cell_fids(row@.cells.take(i as int)),
        decreases row.cells.len() - i,
    {
        let ghost t = row@.cells.take(i + 1);
        assert(t.drop_last() =~= row@.cells.take(i as int));
        assert(t.last() == opt_bytes(row.cells@[i as int]));
        if let Some(rec) = &row.cells[i] {
            if let Some(f) = cell_formula_id(rec.as_slice()) {
                out.push(f);
            }
        }
        assert(out@ =~= start + cell_fids(t));
        i = i + 1;
    }
    assert(row@.cells.take(i as int) =~= row@.cells);
}

fn sort_and_dedup(records: Vec<FormulaRecord>) -> (r: Vec<FormulaRecord>)
    ensures
        r@.map_values(|f: FormulaRecord| f@) == dedup_formulas(sort_formulas(records@.map_values(|f: FormulaRecord| f@))),
{
    let ghost all = records@.map_values(|f: FormulaRecord| f@);
    let mut sorted: Vec<FormulaRecord> = Vec::new();
    let mut k: usize = 0;
    assert(sorted@.map_values(|f: FormulaRecord| f@) =~= sort_formulas(all.take(0)));
    while k < records.len()
        invariant
            k <= records@.len(),
            all == records@.map_values(|f: FormulaRecord| f@),
            sorted@.map_values(|f: FormulaRecord| f@) == sort_formulas(all.take(k as int)),
        decreases records.len() - k,
    {
        assert(all.take(k + 1).drop_last() =~= all.take(k as int));
        assert(all.take(k + 1).last() == records@[k as int]@);
        insert_formula_vec(&mut sorted, records[k]);
        k = k + 1;
    }
    assert(all.take(k as int) =~= all);
    let ghost sv = sorted@.map_values(|f: FormulaRecord| f@);
    let mut out: Vec<FormulaRecord> = Vec::new();
    let mut j: usize = 0;
    assert(out@.map_values(|f: FormulaRecord| f@) =~= dedup_formulas(sv.take(0)));
    while j < sorted.len()
        invariant
            j <= sorted@.len(),
            sv == sorted@.map_values(|f: FormulaRecord| f@),
            out@.map_values(|f: FormulaRecord| f@) == dedup_formulas(sv.take(j as int)),
        decreases sorted.len() - j,
    {
        let ghost prev = out@.map_values(|f: FormulaRecord| f@);
        assert(sv.take(j + 1).drop_last() =~= sv.take(j as int));
        assert(sv.take(j + 1).last() == sorted@[j as int]@);
        let x = sorted[j];
        if out.len() > 0 && out[out.len() - 1].formula_id() == x.formula_id() {
            assert(prev.last() == out@[out@.len() - 1]@);
        } else {
            if out.len() > 0 {
                assert(prev.last() == out@[out@.len() - 1]@);
            }
            out.push(x);
            assert(out@.map_values(|f: FormulaRecord| f@) =~= prev.push(x@));
        }
        j = j + 1;
    }
    assert(sv.take(j as int) =~= sv);
    out
}

impl Spreadsheet {
    /// The formula record a cached formula-result cell record names, if any.
    pub fn formula_record_for_cell(&self, record: &[u8]) -> (r: Option<FormulaRecord>)
        ensures
            opt_formula_view(r) == match spec_formula_id(record@) {
                Some(f) => first_formula(spec_formulas(self@), f),
                None => None,
            },
    {
        match cell_formula_id(record) {
            Some(f) => self.formula_record(f),
            None => None,
        }
    }

    /// The formula records the cells of a table model reference (see
    /// [`spec_model_formula_records`]), sorted by formula id, each once.
    pub fn formula_records_for_model(&self, model: &TableModel) -> (r: Vec<FormulaRecord>)
        ensures
            r@.map_values(|f: FormulaRecord| f@) == spec_model_formula_records(self@, model@),
    {
        let ids = model.tile_ids();
        let ghost tiles = model@.tiles;
        let mut fids: Vec<u32> = Vec::new();
        let mut t: usize = 0;
        assert(tiles.take(0) =~= Seq::<(u32, u64)>::empty());
        while t < ids.len()
            invariant
                t <= ids@.len(),
                ids@ == tiles.map_values(|x: (u32, u64)| x.1),
                tiles == model@.tiles,
                fids@ == tiles_fids(self@, tiles.take(t as int)),
            decreases ids.len() - t,
        {
            assert(tiles.take(t + 1).drop_last() =~= tiles.take(t as int));
            assert(tiles.take(t + 1).last() == tiles[t as int]);
            if let Some(tile) = self.archive_by_root(ids[t]) {
                let raw = decode_raw_rows(tile);
                let ghost rv = raw@.map_values(|x: RawRow| x@);
                let ghost start = fids@;
                let mut k: usize = 0;
                assert(rv.take(0) =~= Seq::<RawRowView>::empty());
                assert(fids@ =~= start + row_fids(rv.take(0)));
                while k < raw.len()
                    invariant
                        k <= raw@.len(),
                        rv == raw@.map_values(|x: RawRow| x@),
                        fids@ == start + row_fids(rv.take(k as int)),
                    decreases raw.len() - k,
                {
                    assert(rv.take(k + 1).drop_last() =~= rv.take(k as int));
                    assert(rv.take(k + 1).last() == raw@[k as int]@);
                    push_cell_fids(&mut fids, &raw[k]);
                    assert(fids@ =~= start + row_fids(rv.take(k + 1)));
                    k = k + 1;
                }
                assert(rv.take(k as int) =~= rv);
            } else {
                assert(fids@ =~= fids@ + Seq::<u32>::empty());
            }
            t = t + 1;
        }
        assert(tiles.take(t as int) =~= tiles);
        let records = self.formula_records();
        let ghost fs = records@.map_values(|f: FormulaRecord| f@);
        let mut found: Vec<FormulaRecord> = Vec::new();
        let mut i: usize = 0;
        assert(fids@.take(0) =~= Seq::<u32>::empty());
        assert(found@.map_values(|f: FormulaRecord| f@) =~= records_for(fs, fids@.take(0)));
        while i < fids.len()
            invariant
                i <= fids@.len(),
                fs == records@.map_values(|f: FormulaRecord| f@),
                found@.map_values(|f: FormulaRecord| f@) == records_for(fs, fids@.take(i as int)),
            decreases fids.len() - i,
        {
            assert(fids@.take(i + 1).drop_last() =~= fids@.take(i as int));
            assert(fids@.take(i + 1).last() == fids@[i as int]);
            let ghost prev = found@.map_values(|f: FormulaRecord| f@);
            match index_of_formula(&records, fids[i]) {
                Some(j) => {
                    found.push(records[j]);
                    assert(found@.map_values(|f: FormulaRecord| f@) =~= prev.push(records@[j as int]@));
                },
                None => {
                    assert(prev + Seq::<FormulaView>::empty() =~= prev);
                },
            }
            i = i + 1;
        }
        assert(fids@.take(i as int) =~= fids@);
        sort_and_dedup(found)
    }

    /// The formula records the tables of a sheet reference (see
    /// [`spec_sheet_formula_records`]), sorted by formula id, each once.
    pub fn formula_records_for_sheet(&self, sheet: &Sheet) -> (r: Vec<FormulaRecord>)
        ensures
            r@.map_values(|f: FormulaRecord| f@) == spec_sheet_formula_records(self@, sheet@.table_model_ids),
    {
        let models = self.table_models_for_sheet(sheet);
        let ghost mv = models@.map_values(|m: TableModel| m@);
        let mut all: Vec<FormulaRecord> = Vec::new();
        let mut i: usize = 0;
        assert(all@.map_values(|f: FormulaRecord| f@) =~= models_records(self@, mv.take(0)));
        while i < models.len()
            invariant
                i <= models@.len(),
                mv == models@.map_values(|m: TableModel| m@),
                all@.map_values(|f: FormulaRecord| f@) == models_records(self@, mv.take(i as int)),
            decreases models.len() - i,
        {
            assert(mv.take(i + 1).drop_last() =~= mv.take(i as int));
            assert(mv.take(i + 1).last() == models@[i as int]@);
            let mut more = self.formula_records_for_model(&models[i]);
            let ghost prev = all@.map_values(|f: FormulaRecord| f@);
            let ghost add = more@.map_values(|f: FormulaRecord| f@);
            all.append(&mut more);
            assert(all@.map_values(|f: FormulaRecord| f@) =~= prev + add);
            i = i + 1;
        }
        assert(mv.take(i as int) =~= mv);
        sort_and_dedup(all)
    }
}

proof fn lemma_dedup_formulas(xs: Seq<FormulaView>)
    requires
        forall|a: int, b: int| 0 <= a < b < xs.len() ==> xs[a].formula_id <= xs[b].formula_id,
    ensures
        forall|a: int, b: int|
            0 <= a < b < dedup_formulas(xs).len() ==> dedup_formulas(xs)[a].formula_id < dedup_formulas(xs)[b].formula_id,
        xs.len() > 0 ==> dedup_formulas(xs).len() > 0 && dedup_formulas(xs).last().formula_id == xs.last().formula_id,
    decreases xs.len(),
{
    if xs.len() > 0 {
        let p = xs.drop_last();
        lemma_dedup_formulas(p);
        let r = dedup_formulas(p);
        if !(r.len() > 0 && r.last().formula_id == xs.last().formula_id) {
            let r2 = r.push(xs.last());
            if p.len() > 0 {
                assert(p.last() == xs[xs.len() - 2]);
                assert(xs[xs.len() - 2].formula_id <= xs[xs.len() - 1].formula_id);
            }
            assert forall|a: int, b: int| 0 <= a < b < r2.len() implies r2[a].formula_id < r2[b].formula_id by {
                if b == r.len() {
                    assert(r2[a] == r[a]);
                    if a < r.len() - 1 {
                        assert(r[a].formula_id < r[r.len() - 1].formula_id);
                    }
                } else {
                    assert(r2[a] == r[a] && r2[b] == r[b]);
                }
            }
        }
    }
}

/// Law: the formula records of a sheet's tables come in strictly increasing
/// order of their formula ids, each formula id once.
pub proof fn lemma_sheet_formulas_ordered(s: SpreadsheetView, ids: Seq<u64>)
    ensures
        forall|a: int, b: int|
            0 <= a < b < spec_sheet_formula_records(s, ids).len() ==> spec_sheet_formula_records(s, ids)[a].formula_id
                < spec_sheet_formula_records(s, ids)[b].formula_id,
{
    let all = models_records(s, models_for_ids(spec_models(s), ids));
    crate::numbers::catalog::lemma_formulas_sorted(all);
    lemma_dedup_formulas(sort_formulas(all));
}

} // verus!
