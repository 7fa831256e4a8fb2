//! Sheets, table models, formula records and drawables of a spreadsheet.
use crate::iwa::{spec_objects, ArchiveView, IwaArchive, IwaObject, ObjectView};
use crate::numbers::counts::{count_ids, count_values};
use crate::numbers::drawable::{
    opt_drawable_view, spec_sheet_drawable, DrawableView, SheetDrawable, SHEET_DRAWABLE_TYPE,
};
use crate::numbers::formula::{spec_formula_records, FormulaRecord, FormulaView};
use crate::numbers::header_storage::{opt_bucket_view, spec_bucket, HeaderStorageBucket};
use crate::numbers::sheet::{
    contains_id, not_in, opt_sheet_view, spec_info_pairs, spec_sheets_of, table_info_to_model_ids, Sheet, SheetView,
};
use crate::numbers::spreadsheet::{
    archive_list, find_in_archives, ids_in, spec_infos, spec_object_references, ObjectInfo, Spreadsheet,
    SpreadsheetView, TableArchive,
};
use crate::numbers::table_model::{opt_model_view, spec_table_models, TableModel, TableModelView};
use vstd::prelude::*;

verus! {

// ───────────────────────────── table models ─────────────────────────────

/// Inserting `x` after every model whose id is not greater than its own.
pub open spec fn insert_model(xs: Seq<TableModelView>, x: TableModelView, j: int) -> Seq<TableModelView>
    decreases xs.len() - j,
{
    if j < 0 || j >= xs.len() {
        xs.push(x)
    } else if x.id < xs[j].id {
        xs.insert(j, x)
    } else {
        insert_model(xs, x, j + 1)
    }
}

/// Models stably sorted by id.
pub open spec fn sort_models(xs: Seq<TableModelView>) -> Seq<TableModelView>
    decreases xs.len(),
{
    if xs.len() == 0 {
        seq![]
    } else {
        insert_model(sort_models(xs.drop_last()), xs.last(), 0)
    }
}

/// Dropping each model whose id equals that of the model kept before it.
pub open spec fn dedup_models(xs: Seq<TableModelView>) -> Seq<TableModelView>
    decreases xs.len(),
{
    if xs.len() == 0 {
        seq![]
    } else {
        let r = dedup_models(xs.drop_last());
        if r.len() > 0 && r.last().id == xs.last().id {
            r
        } else {
            r.push(xs.last())
        }
    }
}

/// The table models of a spreadsheet: those of the calculation engine, then
/// those of the document, sorted by id, one per id.
pub open spec fn spec_models(s: SpreadsheetView) -> Seq<TableModelView> {
    dedup_models(
        sort_models(
            spec_table_models(spec_objects(s.calculation_engine)) + spec_table_models(spec_objects(s.document)),
        ),
    )
}

/// The first model of `ms` with id `id`.
pub open spec fn first_model(ms: Seq<TableModelView>, id: u64) -> Option<TableModelView>
    decreases ms.len(),
{
    if ms.len() == 0 {
        None
    } else if ms[0].id == id {
        Some(ms[0])
    } else {
        first_model(ms.drop_first(), id)
    }
}

/// The models of the ids `ids` found in `ms`, in the order of `ids`.
pub open spec fn models_for_ids(ms: Seq<TableModelView>, ids: Seq<u64>) -> Seq<TableModelView>
    decreases ids.len(),
{
    if ids.len() == 0 {
        seq![]
    } else {
        let r = models_for_ids(ms, ids.drop_last());
        match first_model(ms, ids.last()) {
            Some(m) => r.push(m),
            None => r,
        }
    }
}

// ───────────────────────────── formula records ─────────────────────────────

/// Inserting `x` after every record whose formula id is not greater.
pub open spec fn insert_formula(xs: Seq<FormulaView>, x: FormulaView, j: int) -> Seq<FormulaView>
    decreases xs.len() - j,
{
    if j < 0 || j >= xs.len() {
        xs.push(x)
    } else if x.formula_id < xs[j].formula_id {
        xs.insert(j, x)
    } else {
        insert_formula(xs, x, j + 1)
    }
}

/// Records stably sorted by formula id.
pub open spec fn sort_formulas(xs: Seq<FormulaView>) -> Seq<FormulaView>
    decreases xs.len(),
{
    if xs.len() == 0 {
        seq![]
    } else {
        insert_formula(sort_formulas(xs.drop_last()), xs.last(), 0)
    }
}

/// The formula records of the calculation engine, sorted by formula id.
pub open spec fn spec_formulas(s: SpreadsheetView) -> Seq<FormulaView> {
    sort_formulas(spec_formula_records(spec_objects(s.calculation_engine)))
}

/// The first record of `fs` with formula id `fid`.
pub open spec fn first_formula(fs: Seq<FormulaView>, fid: u32) -> Option<FormulaView>
    decreases fs.len(),
{
    if fs.len() == 0 {
        None
    } else if fs[0].formula_id == fid {
        Some(fs[0])
    } else {
        first_formula(fs.drop_first(), fid)
    }
}

// ───────────────────────────── sheets ─────────────────────────────

/// Inserting `x` after every sheet whose id is not greater than its own.
pub open spec fn insert_sheet(xs: Seq<SheetView>, x: SheetView, j: int) -> Seq<SheetView>
    decreases xs.len() - j,
{
    if j < 0 || j >= xs.len() {
        xs.push(x)
    } else if x.id < xs[j].id {
        xs.insert(j, x)
    } else {
        insert_sheet(xs, x, j + 1)
    }
}

/// Sheets stably sorted by id.
pub open spec fn sort_sheets(xs: Seq<SheetView>) -> Seq<SheetView>
    decreases xs.len(),
{
    if xs.len() == 0 {
        seq![]
    } else {
        insert_sheet(sort_sheets(xs.drop_last()), xs.last(), 0)
    }
}

/// The sheets of the document, sorted by id; their tables are resolved
/// through the wrappers of the document and the calculation engine.
pub open spec fn spec_sheets(s: SpreadsheetView) -> Seq<SheetView> {
    let doc = spec_objects(s.document);
    sort_sheets(spec_sheets_of(doc, spec_info_pairs(doc + spec_objects(s.calculation_engine))))
}

/// The first sheet of `ss` whose table models include `mid`.
pub open spec fn sheet_with_model(ss: Seq<SheetView>, mid: u64) -> Option<SheetView>
    decreases ss.len(),
{
    if ss.len() == 0 {
        None
    } else if ss[0].table_model_ids.contains(mid) {
        Some(ss[0])
    } else {
        sheet_with_model(ss.drop_first(), mid)
    }
}

/// The object references of a sheet that are not table wrappers.
pub open spec fn non_table_refs(sh: SheetView) -> Seq<u64> {
    not_in(sh.object_reference_ids, sh.table_info_ids)
}

/// The first sheet of `ss` whose non-table references include `did`.
pub open spec fn sheet_with_drawable(ss: Seq<SheetView>, did: u64) -> Option<SheetView>
    decreases ss.len(),
{
    if ss.len() == 0 {
        None
    } else if non_table_refs(ss[0]).contains(did) {
        Some(ss[0])
    } else {
        sheet_with_drawable(ss.drop_first(), did)
    }
}

// ───────────────────────────── drawables ─────────────────────────────

/// The drawable with object id `id`.
pub open spec fn spec_drawable(s: SpreadsheetView, id: u64) -> Option<DrawableView> {
    match find_in_archives(archive_list(s), id) {
        Some(o) => spec_sheet_drawable(o),
        None => None,
    }
}

/// The drawables of the ids `ids`, in order.
pub open spec fn drawables_of(s: SpreadsheetView, ids: Seq<u64>) -> Seq<DrawableView>
    decreases ids.len(),
{
    if ids.len() == 0 {
        seq![]
    } else {
        let r = drawables_of(s, ids.drop_last());
        match spec_drawable(s, ids.last()) {
            Some(d) => r.push(d),
            None => r,
        }
    }
}

/// Inserting `x` after every drawable whose id is not greater than its own.
pub open spec fn insert_drawable(xs: Seq<DrawableView>, x: DrawableView, j: int) -> Seq<DrawableView>
    decreases xs.len() - j,
{
    if j < 0 || j >= xs.len() {
        xs.push(x)
    } else if x.object_id < xs[j].object_id {
        xs.insert(j, x)
    } else {
        insert_drawable(xs, x, j + 1)
    }
}

/// Drawables stably sorted by object id.
pub open spec fn sort_drawables(xs: Seq<DrawableView>) -> Seq<DrawableView>
    decreases xs.len(),
{
    if xs.len() == 0 {
        seq![]
    } else {
        insert_drawable(sort_drawables(xs.drop_last()), xs.last(), 0)
    }
}

/// Dropping each drawable whose id equals that of the one kept before it.
pub open spec fn dedup_drawables(xs: Seq<DrawableView>) -> Seq<DrawableView>
    decreases xs.len(),
{
    if xs.len() == 0 {
        seq![]
    } else {
        let r = dedup_drawables(xs.drop_last());
        if r.len() > 0 && r.last().object_id == xs.last().object_id {
            r
        } else {
            r.push(xs.last())
        }
    }
}

/// The non-table references of a list of sheets, concatenated.
pub open spec fn all_non_table_refs(ss: Seq<SheetView>) -> Seq<u64>
    decreases ss.len(),
{
    if ss.len() == 0 {
        seq![]
    } else {
        all_non_table_refs(ss.drop_last()) + non_table_refs(ss.last())
    }
}

/// Whether a message type belongs to the drawing cluster.
pub open spec fn is_cluster_type(t: u64) -> bool {
    5020 <= t <= 5030
}

/// The drawing-cluster objects among the objects `ids`, in order.
pub open spec fn cluster_objects(s: SpreadsheetView, ids: Seq<u64>) -> Seq<ObjectView>
    decreases ids.len(),
{
    if ids.len() == 0 {
        seq![]
    } else {
        let r = cluster_objects(s, ids.drop_last());
        match find_in_archives(archive_list(s), ids.last()) {
            Some(o) => if o.message_type matches Some(t) && is_cluster_type(t) {
                r.push(o)
            } else {
                r
            },
            None => r,
        }
    }
}

/// The message types of `objs` that are present, in order.
pub open spec fn types_in(objs: Seq<ObjectView>) -> Seq<u64>
    decreases objs.len(),
{
    if objs.len() == 0 {
        seq![]
    } else {
        let r = types_in(objs.drop_last());
        match objs.last().message_type {
            Some(t) => r.push(t),
            None => r,
        }
    }
}

/// The first table archive whose root object is `root`.
pub open spec fn archive_by_root(ts: Seq<(Seq<char>, ArchiveView)>, root: u64) -> Option<ArchiveView>
    decreases ts.len(),
{
    if ts.len() == 0 {
        None
    } else if ts[0].1.descriptor.root_object_id == Some(root) {
        Some(ts[0].1)
    } else {
        archive_by_root(ts.drop_first(), root)
    }
}

// ───────────────────────────── exec helpers ─────────────────────────────

fn insert_model_vec(xs: &mut Vec<TableModel>, x: TableModel)
    ensures
        final(xs)@.map_values(|m: TableModel| m@) == insert_model(old(xs)@.map_values(|m: TableModel| m@), x@, 0),
{
    let ghost s = xs@.map_values(|m: TableModel| m@);
    let mut j: usize = 0;
    while j < xs.len()
        invariant
            j <= xs@.len(),
            s == xs@.map_values(|m: TableModel| m@),
            s == old(xs)@.map_values(|m: TableModel| m@),
            insert_model(s, x@, 0) == insert_model(s, x@, j as int),
        decreases xs.len() - j,
    {
        assert(s[j as int] == xs@[j as int]@);
        if x.id() < xs[j].id() {
            xs.insert(j, x);
            assert(xs@.map_values(|m: TableModel| m@) =~= s.insert(j as int, x@));
            return;
        }
        j = j + 1;
    }
    xs.push(x);
    assert(xs@.map_values(|m: TableModel| m@) =~= s.push(x@));
}

fn sort_model_vec(v: Vec<TableModel>) -> (r: Vec<TableModel>)
    ensures
        r@.map_values(|m: TableModel| m@) == sort_models(v@.map_values(|m: TableModel| m@)),
{
    let ghost orig = v@.map_values(|m: TableModel| m@);
    let n = v.len();
    let mut rest = v;
    let mut out: Vec<TableModel> = Vec::new();
    let mut k: usize = 0;
    while rest.len() > 0
        invariant
            k <= orig.len(),
            orig.len() == n,
            rest@.len() + k == orig.len(),
            rest@.map_values(|m: TableModel| m@) == orig.skip(k as int),
            out@.map_values(|m: TableModel| m@) == sort_models(orig.take(k as int)),
        decreases rest.len(),
    {
        assert(orig.skip(k as int)[0] == orig[k as int]);
        let ghost pre = rest@;
        let x = rest.remove(0);
        assert(x@ == orig[k as int]);
        assert forall|i: int| 0 <= i < rest@.len() implies rest@[i]@ == orig.skip(k + 1)[i] by {
            assert(rest@[i] == pre[i + 1]);
            assert(pre.map_values(|m: TableModel| m@)[i + 1] == pre[i + 1]@);
        }
        assert(rest@.map_values(|m: TableModel| m@) =~= orig.skip(k + 1));
        assert(orig.take(k + 1).drop_last() =~= orig.take(k as int));
        insert_model_vec(&mut out, x);
        k = k + 1;
    }
    assert(orig.take(k as int) =~= orig);
    out
}

fn dedup_model_vec(v: Vec<TableModel>) -> (r: Vec<TableModel>)
    ensures
        r@.map_values(|m: TableModel| m@) == dedup_models(v@.map_values(|m: TableModel| m@)),
{
    let ghost orig = v@.map_values(|m: TableModel| m@);
    let n = v.len();
    let mut rest = v;
    let mut out: Vec<TableModel> = Vec::new();
    let mut k: usize = 0;
    while rest.len() > 0
        invariant
            k <= orig.len(),
            orig.len() == n,
            rest@.len() + k == orig.len(),
            rest@.map_values(|m: TableModel| m@) == orig.skip(k as int),
            out@.map_values(|m: TableModel| m@) == dedup_models(orig.take(k as int)),
        decreases rest.len(),
    {
        assert(orig.skip(k as int)[0] == orig[k as int]);
        let ghost pre = rest@;
        let x = rest.remove(0);
        assert(x@ == orig[k as int]);
        assert forall|i: int| 0 <= i < rest@.len() implies rest@[i]@ == orig.skip(k + 1)[i] by {
            assert(rest@[i] == pre[i + 1]);
            assert(pre.map_values(|m: TableModel| m@)[i + 1] == pre[i + 1]@);
        }
        assert(rest@.map_values(|m: TableModel| m@) =~= orig.skip(k + 1));
        assert(orig.take(k + 1).drop_last() =~= orig.take(k as int));
        let ghost before = out@.map_values(|m: TableModel| m@);
        let n = out.len();
        let keep = if n > 0 {
            assert(before.last() == out@[n - 1]@);
            out[n - 1].id() != x.id()
        } else {
            true
        };
        if keep {
            out.push(x);
            assert(out@.map_values(|m: TableModel| m@) =~= before.push(x@));
        }
        k = k + 1;
    }
    assert(orig.take(k as int) =~= orig);
    out
}

pub(crate) fn insert_formula_vec(xs: &mut Vec<FormulaRecord>, x: FormulaRecord)
    ensures
        final(xs)@.map_values(|f: FormulaRecord| f@) == insert_formula(
            old(xs)@.map_values(|f: FormulaRecord| f@),
            x@,
            0,
        ),
{
    let ghost s = xs@.map_values(|f: FormulaRecord| f@);
    let mut j: usize = 0;
    while j < xs.len()
        invariant
            j <= xs@.len(),
            s == xs@.map_values(|f: FormulaRecord| f@),
            s == old(xs)@.map_values(|f: FormulaRecord| f@),
            insert_formula(s, x@, 0) == insert_formula(s, x@, j as int),
        decreases xs.len() - j,
    {
        assert(s[j as int] == xs@[j as int]@);
        if x.formula_id() < xs[j].formula_id() {
            xs.insert(j, x);
            assert(xs@.map_values(|f: FormulaRecord| f@) =~= s.insert(j as int, x@));
            return;
        }
        j = j + 1;
    }
    xs.push(x);
    assert(xs@.map_values(|f: FormulaRecord| f@) =~= s.push(x@));
}

fn insert_sheet_vec(xs: &mut Vec<Sheet>, x: Sheet)
    ensures
        final(xs)@.map_values(|s: Sheet| s@) == insert_sheet(old(xs)@.map_values(|s: Sheet| s@), x@, 0),
{
    let ghost s = xs@.map_values(|s: Sheet| s@);
    let mut j: usize = 0;
    while j < xs.len()
        invariant
            j <= xs@.len(),
            s == xs@.map_values(|s: Sheet| s@),
            s == old(xs)@.map_values(|s: Sheet| s@),
            insert_sheet(s, x@, 0) == insert_sheet(s, x@, j as int),
        decreases xs.len() - j,
    {
        assert(s[j as int] == xs@[j as int]@);
        if x.id() < xs[j].id() {
            xs.insert(j, x);
            assert(xs@.map_values(|s: Sheet| s@) =~= s.insert(j as int, x@));
            return;
        }
        j = j + 1;
    }
    xs.push(x);
    assert(xs@.map_values(|s: Sheet| s@) =~= s.push(x@));
}

fn insert_drawable_vec(xs: &mut Vec<SheetDrawable>, x: SheetDrawable)
    ensures
        final(xs)@.map_values(|d: SheetDrawable| d@) == insert_drawable(
            old(xs)@.map_values(|d: SheetDrawable| d@),
            x@,
            0,
        ),
{
    let ghost s = xs@.map_values(|d: SheetDrawable| d@);
    let mut j: usize = 0;
    while j < xs.len()
        invariant
            j <= xs@.len(),
            s == xs@.map_values(|d: SheetDrawable| d@),
            s == old(xs)@.map_values(|d: SheetDrawable| d@),
            insert_drawable(s, x@, 0) == insert_drawable(s, x@, j as int),
        decreases xs.len() - j,
    {
        assert(s[j as int] == xs@[j as int]@);
        if x.object_id() < xs[j].object_id() {
            xs.insert(j, x);
            assert(xs@.map_values(|d: SheetDrawable| d@) =~= s.insert(j as int, x@));
            return;
        }
        j = j + 1;
    }
    xs.push(x);
    assert(xs@.map_values(|d: SheetDrawable| d@) =~= s.push(x@));
}

fn dedup_drawable_vec(v: Vec<SheetDrawable>) -> (r: Vec<SheetDrawable>)
    ensures
        r@.map_values(|d: SheetDrawable| d@) == dedup_drawables(v@.map_values(|d: SheetDrawable| d@)),
{
    let ghost orig = v@.map_values(|d: SheetDrawable| d@);
    let n = v.len();
    let mut rest = v;
    let mut out: Vec<SheetDrawable> = Vec::new();
    let mut k: usize = 0;
    while rest.len() > 0
        invariant
            k <= orig.len(),
            orig.len() == n,
            rest@.len() + k == orig.len(),
            rest@.map_values(|d: SheetDrawable| d@) == orig.skip(k as int),
            out@.map_values(|d: SheetDrawable| d@) == dedup_drawables(orig.take(k as int)),
        decreases rest.len(),
    {
        assert(orig.skip(k as int)[0] == orig[k as int]);
        let ghost pre = rest@;
        let x = rest.remove(0);
        assert(x@ == orig[k as int]);
        assert forall|i: int| 0 <= i < rest@.len() implies rest@[i]@ == orig.skip(k + 1)[i] by {
            assert(rest@[i] == pre[i + 1]);
            assert(pre.map_values(|d: SheetDrawable| d@)[i + 1] == pre[i + 1]@);
        }
        assert(rest@.map_values(|d: SheetDrawable| d@) =~= orig.skip(k + 1));
        assert(orig.take(k + 1).drop_last() =~= orig.take(k as int));
        let ghost before = out@.map_values(|d: SheetDrawable| d@);
        let n = out.len();
        let keep = if n > 0 {
            assert(before.last() == out@[n - 1]@);
            out[n - 1].object_id() != x.object_id()
        } else {
            true
        };
        if keep {
            out.push(x);
            assert(out@.map_values(|d: SheetDrawable| d@) =~= before.push(x@));
        }
        k = k + 1;
    }
    assert(orig.take(k as int) =~= orig);
    out
}

fn index_of_model(v: &Vec<TableModel>, id: u64) -> (r: Option<usize>)
    ensures
        match first_model(v@.map_values(|m: TableModel| m@), id) {
            Some(m) => r matches Some(j) && j < v@.len() && v@[j as int]@ == m,
            None => r is None,
        },
{
    let ghost all = v@.map_values(|m: TableModel| m@);
    let mut j: usize = 0;
    assert(all.skip(0) =~= all);
    while j < v.len()
        invariant
            j <= v@.len(),
            all == v@.map_values(|m: TableModel| m@),
            first_model(all, id) == first_model(all.skip(j as int), id),
        decreases v.len() - j,
    {
        assert(all.skip(j as int)[0] == v@[j as int]@);
        assert(all.skip(j as int).drop_first() =~= all.skip(j + 1));
        if v[j].id() == id {
            return Some(j);
        }
        j = j + 1;
    }
    assert(all.skip(j as int) =~= seq![]);
    None
}

pub(crate) fn index_of_formula(v: &Vec<FormulaRecord>, fid: u32) -> (r: Option<usize>)
    ensures
        match first_formula(v@.map_values(|f: FormulaRecord| f@), fid) {
            Some(f) => r matches Some(j) && j < v@.len() && v@[j as int]@ == f,
            None => r is None,
        },
{
    let ghost all = v@.map_values(|f: FormulaRecord| f@);
    let mut j: usize = 0;
    assert(all.skip(0) =~= all);
    while j < v.len()
        invariant
            j <= v@.len(),
            all == v@.map_values(|f: FormulaRecord| f@),
            first_formula(all, fid) == first_formula(all.skip(j as int), fid),
        decreases v.len() - j,
    {
        assert(all.skip(j as int)[0] == v@[j as int]@);
        assert(all.skip(j as int).drop_first() =~= all.skip(j + 1));
        if v[j].formula_id() == fid {
            return Some(j);
        }
        j = j + 1;
    }
    assert(all.skip(j as int) =~= seq![]);
    None
}

/// The view of an optional formula record.
pub open spec fn opt_formula_view(f: Option<FormulaRecord>) -> Option<FormulaView> {
    match f {
        Some(x) => Some(x@),
        None => None,
    }
}

fn drawables_for_ids(s: &Spreadsheet, ids: &Vec<u64>) -> (r: Vec<SheetDrawable>)
    ensures
        r@.map_values(|d: SheetDrawable| d@) == dedup_drawables(sort_drawables(drawables_of(s@, ids@))),
{
    let mut found: Vec<SheetDrawable> = Vec::new();
    let mut i: usize = 0;
    while i < ids.len()
        invariant
            i <= ids@.len(),
            found@.map_values(|d: SheetDrawable| d@) == sort_drawables(drawables_of(s@, ids@.take(i as int))),
        decreases ids.len() - i,
    {
        assert(ids@.take(i + 1).drop_last() =~= ids@.take(i as int));
        if let Some(d) = s.sheet_drawable(ids[i]) {
            let ghost before = drawables_of(s@, ids@.take(i as int));
            assert(before.push(d@).drop_last() =~= before);
            insert_drawable_vec(&mut found, d);
        }
        i = i + 1;
    }
    assert(ids@.take(ids@.len() as int) =~= ids@);
    dedup_drawable_vec(found)
}

impl Spreadsheet {
    /// The table models of the calculation engine and then the document,
    /// sorted by id, one per id (see [`spec_models`]).
    pub fn table_models(&self) -> (r: Vec<TableModel>)
        ensures
            r@.map_values(|m: TableModel| m@) == spec_models(self@),
    {
        let mut all = TableModel::collect(&self.calculation_engine().objects());
        let mut more = TableModel::collect(&self.document().objects());
        let ghost a = all@.map_values(|m: TableModel| m@);
        let ghost b = more@.map_values(|m: TableModel| m@);
        all.append(&mut more);
        assert(all@.map_values(|m: TableModel| m@) =~= a + b);
        dedup_model_vec(sort_model_vec(all))
    }

    /// The table model with id `model_id`.
    pub fn table_model(&self, model_id: u64) -> (r: Option<TableModel>)
        ensures
            opt_model_view(r) == first_model(spec_models(self@), model_id),
    {
        let mut models = self.table_models();
        match index_of_model(&models, model_id) {
            Some(j) => Some(models.remove(j)),
            None => None,
        }
    }

    /// The table models of a sheet, in sheet order.
    pub fn table_models_for_sheet(&self, sheet: &Sheet) -> (r: Vec<TableModel>)
        ensures
            r@.map_values(|m: TableModel| m@) == models_for_ids(spec_models(self@), sheet@.table_model_ids),
    {
        let ids = sheet.table_model_ids();
        let mut out: Vec<TableModel> = Vec::new();
        let mut i: usize = 0;
        while i < ids.len()
            invariant
                i <= ids@.len(),
                ids@ == sheet@.table_model_ids,
                out@.map_values(|m: TableModel| m@) == models_for_ids(spec_models(self@), ids@.take(i as int)),
            decreases ids.len() - i,
        {
            assert(ids@.take(i + 1).drop_last() =~= ids@.take(i as int));
            let ghost before = out@.map_values(|m: TableModel| m@);
            if let Some(m) = self.table_model(ids[i]) {
                out.push(m);
                assert(out@.map_values(|m: TableModel| m@) =~= before.push(m@));
            }
            i = i + 1;
        }
        assert(ids@.take(ids@.len() as int) =~= ids@);
        out
    }

    /// The formula records of the calculation engine, sorted by formula id.
    pub fn formula_records(&self) -> (r: Vec<FormulaRecord>)
        ensures
            r@.map_values(|f: FormulaRecord| f@) == spec_formulas(self@),
    {
        let records = FormulaRecord::collect(&self.calculation_engine().objects());
        let ghost orig = records@.map_values(|f: FormulaRecord| f@);
        let mut out: Vec<FormulaRecord> = Vec::new();
        let mut i: usize = 0;
        while i < records.len()
            invariant
                i <= records@.len(),
                orig == records@.map_values(|f: FormulaRecord| f@),
                out@.map_values(|f: FormulaRecord| f@) == sort_formulas(orig.take(i as int)),
            decreases records.len() - i,
        {
            assert(orig.take(i + 1).drop_last() =~= orig.take(i as int));
            assert(orig.take(i + 1).last() == records@[i as int]@);
            insert_formula_vec(&mut out, records[i]);
            i = i + 1;
        }
        assert(orig.take(records@.len() as int) =~= orig);
        out
    }

    /// The formula record with local formula id `formula_id`.
    pub fn formula_record(&self, formula_id: u32) -> (r: Option<FormulaRecord>)
        ensures
            opt_formula_view(r) == first_formula(spec_formulas(self@), formula_id),
    {
        let records = self.formula_records();
        match index_of_formula(&records, formula_id) {
            Some(j) => Some(records[j]),
            None => None,
        }
    }

    /// The sheets of the document sorted by id (see [`spec_sheets`]).
    pub fn sheets(&self) -> (r: Vec<Sheet>)
        ensures
            r@.map_values(|s: Sheet| s@) == spec_sheets(self@),
    {
        let mut objs = self.document().objects();
        let ghost d = objs@.map_values(|o: IwaObject| o@);
        let mut calc = self.calculation_engine().objects();
        let ghost c = calc@.map_values(|o: IwaObject| o@);
        objs.append(&mut calc);
        assert(objs@.map_values(|o: IwaObject| o@) =~= d + c);
        let pairs = table_info_to_model_ids(&objs);
        let found = Sheet::collect(&self.document().objects(), &pairs);
        let ghost orig = found@.map_values(|s: Sheet| s@);
        let n = found.len();
        let mut rest = found;
        let mut out: Vec<Sheet> = Vec::new();
        let mut k: usize = 0;
        while rest.len() > 0
            invariant
                k <= orig.len(),
                orig.len() == n,
                rest@.len() + k == orig.len(),
                rest@.map_values(|s: Sheet| s@) == orig.skip(k as int),
                out@.map_values(|s: Sheet| s@) == sort_sheets(orig.take(k as int)),
            decreases rest.len(),
        {
            let ghost pre = rest@;
            let x = rest.remove(0);
            assert(orig.skip(k as int)[0] == orig[k as int]);
            assert(x@ == orig[k as int]);
            assert forall|i: int| 0 <= i < rest@.len() implies rest@[i]@ == orig.skip(k + 1)[i] by {
                assert(rest@[i] == pre[i + 1]);
                assert(pre.map_values(|s: Sheet| s@)[i + 1] == pre[i + 1]@);
            }
            assert(rest@.map_values(|s: Sheet| s@) =~= orig.skip(k + 1));
            assert(orig.take(k + 1).drop_last() =~= orig.take(k as int));
            insert_sheet_vec(&mut out, x);
            k = k + 1;
        }
        assert(orig.take(k as int) =~= orig);
        out
    }

    /// The first sheet whose table models include `model_id`.
    pub fn sheet_for_table_model(&self, model_id: u64) -> (r: Option<Sheet>)
        ensures
            opt_sheet_view(r) == sheet_with_model(spec_sheets(self@), model_id),
    {
        let mut sheets = self.sheets();
        let ghost all = sheets@.map_values(|s: Sheet| s@);
        let mut j: usize = 0;
        assert(all.skip(0) =~= all);
        while j < sheets.len()
            invariant
                j <= sheets@.len(),
                all == sheets@.map_values(|s: Sheet| s@),
                all == spec_sheets(self@),
                sheet_with_model(all, model_id) == sheet_with_model(all.skip(j as int), model_id),
            decreases sheets.len() - j,
        {
            assert(all.skip(j as int)[0] == sheets@[j as int]@);
            assert(all.skip(j as int).drop_first() =~= all.skip(j + 1));
            if contains_id(sheets[j].table_model_ids(), model_id) {
                let ghost expected = sheets@[j as int]@;
                let s = sheets.remove(j);
                assert(s@ == expected);
                return Some(s);
            }
            j = j + 1;
        }
        assert(all.skip(j as int) =~= seq![]);
        None
    }

    /// The first sheet whose non-table references include `drawable_id`.
    pub fn sheet_for_drawable(&self, drawable_id: u64) -> (r: Option<Sheet>)
        ensures
            opt_sheet_view(r) == sheet_with_drawable(spec_sheets(self@), drawable_id),
    {
        let mut sheets = self.sheets();
        let ghost all = sheets@.map_values(|s: Sheet| s@);
        let mut j: usize = 0;
        assert(all.skip(0) =~= all);
        while j < sheets.len()
            invariant
                j <= sheets@.len(),
                all == sheets@.map_values(|s: Sheet| s@),
                all == spec_sheets(self@),
                sheet_with_drawable(all, drawable_id) == sheet_with_drawable(all.skip(j as int), drawable_id),
            decreases sheets.len() - j,
        {
            assert(all.skip(j as int)[0] == sheets@[j as int]@);
            assert(all.skip(j as int).drop_first() =~= all.skip(j + 1));
            let refs = sheets[j].non_table_object_reference_ids();
            if contains_id(refs.as_slice(), drawable_id) {
                let ghost expected = sheets@[j as int]@;
                let s = sheets.remove(j);
                assert(s@ == expected);
                return Some(s);
            }
            j = j + 1;
        }
        assert(all.skip(j as int) =~= seq![]);
        None
    }

    /// The drawable with object id `object_id`, if that object is one.
    pub fn sheet_drawable(&self, object_id: u64) -> (r: Option<SheetDrawable>)
        ensures
            opt_drawable_view(r) == spec_drawable(self@, object_id),
    {
        match self.object_by_id(object_id) {
            Some(o) => if o.message_type == Some(SHEET_DRAWABLE_TYPE) {
                SheetDrawable::from_object(&o)
            } else {
                None
            },
            None => None,
        }
    }

    /// The drawables referenced by the sheets, sorted by id, one per id.
    pub fn sheet_drawables(&self) -> (r: Vec<SheetDrawable>)
        ensures
            r@.map_values(|d: SheetDrawable| d@) == dedup_drawables(
                sort_drawables(drawables_of(self@, all_non_table_refs(spec_sheets(self@)))),
            ),
    {
        let sheets = self.sheets();
        let ghost ss = sheets@.map_values(|s: Sheet| s@);
        let mut ids: Vec<u64> = Vec::new();
        let mut i: usize = 0;
        while i < sheets.len()
            invariant
                i <= sheets@.len(),
                ss == sheets@.map_values(|s: Sheet| s@),
                ids@ == all_non_table_refs(ss.take(i as int)),
            decreases sheets.len() - i,
        {
            assert(ss.take(i + 1).drop_last() =~= ss.take(i as int));
            assert(ss.take(i + 1).last() == sheets@[i as int]@);
            let mut refs = sheets[i].non_table_object_reference_ids();
            let ghost before = ids@;
            let ghost rv = refs@;
            ids.append(&mut refs);
            assert(ids@ =~= before + rv);
            i = i + 1;
        }
        assert(ss.take(sheets@.len() as int) =~= ss);
        drawables_for_ids(self, &ids)
    }

    /// The drawables a sheet references, sorted by id, one per id.
    pub fn drawables_for_sheet(&self, sheet: &Sheet) -> (r: Vec<SheetDrawable>)
        ensures
            r@.map_values(|d: SheetDrawable| d@) == dedup_drawables(
                sort_drawables(drawables_of(self@, non_table_refs(sheet@))),
            ),
    {
        let ids = sheet.non_table_object_reference_ids();
        drawables_for_ids(self, &ids)
    }

    /// The drawing-cluster objects (types 5020 to 5030) that a drawable
    /// refers to, in reference order.
    pub fn sheet_drawable_objects(&self, drawable_id: u64) -> (r: Vec<IwaObject>)
        ensures
            r@.map_values(|o: IwaObject| o@) == cluster_objects(self@, spec_object_references(self@, drawable_id)),
    {
        let refs = self.object_references(drawable_id);
        let mut out: Vec<IwaObject> = Vec::new();
        let mut i: usize = 0;
        while i < refs.len()
            invariant
                i <= refs@.len(),
                refs@ == spec_object_references(self@, drawable_id),
                out@.map_values(|o: IwaObject| o@) == cluster_objects(self@, refs@.take(i as int)),
            decreases refs.len() - i,
        {
            assert(refs@.take(i + 1).drop_last() =~= refs@.take(i as int));
            let ghost before = out@.map_values(|o: IwaObject| o@);
            if let Some(o) = self.object_by_id(refs[i]) {
                if let Some(t) = o.message_type {
                    if 5020 <= t && t <= 5030 {
                        out.push(o);
                        assert(out@.map_values(|o: IwaObject| o@) =~= before.push(o@));
                    }
                }
            }
            i = i + 1;
        }
        assert(refs@.take(refs@.len() as int) =~= refs@);
        out
    }

    /// The summaries of the drawing-cluster objects a drawable refers to.
    pub fn sheet_drawable_object_info(&self, drawable_id: u64) -> (r: Vec<ObjectInfo>)
        ensures
            r@.map_values(|i: ObjectInfo| i@) == spec_infos(
                self@,
                ids_in(cluster_objects(self@, spec_object_references(self@, drawable_id))),
            ),
    {
        let objs = self.sheet_drawable_objects(drawable_id);
        let ghost ov = objs@.map_values(|o: IwaObject| o@);
        let mut ids: Vec<u64> = Vec::new();
        let mut i: usize = 0;
        while i < objs.len()
            invariant
                i <= objs@.len(),
                ov == objs@.map_values(|o: IwaObject| o@),
                ids@ == ids_in(ov.take(i as int)),
            decreases objs.len() - i,
        {
            assert(ov.take(i + 1).drop_last() =~= ov.take(i as int));
            assert(ov.take(i + 1).last() == objs@[i as int]@);
            if let Some(x) = objs[i].identifier {
                ids.push(x);
            }
            i = i + 1;
        }
        assert(ov.take(objs@.len() as int) =~= ov);
        self.infos_of(&ids)
    }

    /// Counts the message types of the drawing-cluster objects a drawable
    /// refers to.
    pub fn sheet_drawable_cluster_type_counts(&self, drawable_id: u64) -> (r: std::collections::BTreeMap<u64, usize>)
        ensures
            r@ == count_values(types_in(cluster_objects(self@, spec_object_references(self@, drawable_id)))),
    {
        let objs = self.sheet_drawable_objects(drawable_id);
        let ghost ov = objs@.map_values(|o: IwaObject| o@);
        let mut types: Vec<u64> = Vec::new();
        let mut i: usize = 0;
        while i < objs.len()
            invariant
                i <= objs@.len(),
                ov == objs@.map_values(|o: IwaObject| o@),
                types@ == types_in(ov.take(i as int)),
            decreases objs.len() - i,
        {
            assert(ov.take(i + 1).drop_last() =~= ov.take(i as int));
            assert(ov.take(i + 1).last() == objs@[i as int]@);
            if let Some(t) = objs[i].message_type {
                types.push(t);
            }
            i = i + 1;
        }
        assert(ov.take(objs@.len() as int) =~= ov);
        count_ids(&types)
    }

    /// The first table archive (`Tile`, `DataList`, …) whose root object is
    /// `root_object_id`.
    pub fn archive_by_root(&self, root_object_id: u64) -> (r: Option<&IwaArchive>)
        ensures
            match archive_by_root(self@.table_archives, root_object_id) {
                Some(a) => r matches Some(x) && x@ == a,
                None => r is None,
            },
    {
        let ts = self.table_archives();
        let ghost tv = ts@.map_values(|t: TableArchive| t@);
        let mut j: usize = 0;
        assert(tv.skip(0) =~= tv);
        while j < ts.len()
            invariant
                j <= ts@.len(),
                tv == ts@.map_values(|t: TableArchive| t@),
                tv == self@.table_archives,
                archive_by_root(tv, root_object_id) == archive_by_root(tv.skip(j as int), root_object_id),
            decreases ts.len() - j,
        {
            assert(tv.skip(j as int)[0] == ts@[j as int]@);
            assert(tv.skip(j as int).drop_first() =~= tv.skip(j + 1));
            let a = ts[j].archive();
            if a.descriptor().root_object_id == Some(root_object_id) {
                return Some(a);
            }
            j = j + 1;
        }
        assert(tv.skip(j as int) =~= seq![]);
        None
    }

    /// The header storage bucket of the table archive whose root object is
    /// `root_object_id`.
    pub fn header_storage_bucket(&self, root_object_id: u64) -> (r: Option<HeaderStorageBucket>)
        ensures
            opt_bucket_view(r) == match archive_by_root(self@.table_archives, root_object_id) {
                Some(a) => spec_bucket(a),
                None => None,
            },
    {
        let ts = self.table_archives();
        let ghost tv = ts@.map_values(|t: TableArchive| t@);
        let mut j: usize = 0;
        assert(tv.skip(0) =~= tv);
        while j < ts.len()
            invariant
                j <= ts@.len(),
                tv == ts@.map_values(|t: TableArchive| t@),
                tv == self@.table_archives,
                archive_by_root(tv, root_object_id) == archive_by_root(tv.skip(j as int), root_object_id),
            decreases ts.len() - j,
        {
            assert(tv.skip(j as int)[0] == ts@[j as int]@);
            assert(tv.skip(j as int).drop_first() =~= tv.skip(j + 1));
            let a = ts[j].archive();
            if a.descriptor().root_object_id == Some(root_object_id) {
                return HeaderStorageBucket::from_archive(a);
            }
            j = j + 1;
        }
        assert(tv.skip(j as int) =~= seq![]);
        None
    }
}

proof fn lemma_models_insert_sorted(xs: Seq<TableModelView>, x: TableModelView, j: int)
    requires
        0 <= j <= xs.len(),
        forall|a: int, b: int| 0 <= a < b < xs.len() ==> xs[a].id <= xs[b].id,
        forall|k: int| 0 <= k < j ==> xs[k].id <= x.id,
    ensures
        forall|a: int, b: int|
            0 <= a < b < insert_model(xs, x, j).len() ==> insert_model(xs, x, j)[a].id <= insert_model(xs, x, j)[b].id,
        insert_model(xs, x, j).len() == xs.len() + 1,
    decreases xs.len() - j,
{
    if j >= xs.len() {
        let r = xs.push(x);
        assert(r == insert_model(xs, x, j));
        assert forall|a: int, b: int| 0 <= a < b < r.len() implies r[a].id <= r[b].id by {
            if b == xs.len() {
                assert(r[a] == xs[a]);
            } else {
                assert(r[a] == xs[a] && r[b] == xs[b]);
            }
        }
    } else if x.id < xs[j].id {
        let r = xs.insert(j, x);
        assert(r == insert_model(xs, x, j));
        assert forall|a: int, b: int| 0 <= a < b < r.len() implies r[a].id <= r[b].id by {
            let ra = if a < j { xs[a] } else if a == j { x } else { xs[a - 1] };
            let rb = if b < j { xs[b] } else if b == j { x } else { xs[b - 1] };
            assert(r[a] == ra);
            assert(r[b] == rb);
            if a < j && b > j {
                assert(xs[a].id <= xs[b - 1].id);
            }
            if a == j {
                assert(xs[j].id <= xs[b - 1].id || b - 1 == j);
            }
        }
    } else {
        assert(insert_model(xs, x, j) == insert_model(xs, x, j + 1));
        lemma_models_insert_sorted(xs, x, j + 1);
    }
}

proof fn lemma_models_sorted(xs: Seq<TableModelView>)
    ensures
        forall|a: int, b: int| 0 <= a < b < sort_models(xs).len() ==> sort_models(xs)[a].id <= sort_models(xs)[b].id,
        sort_models(xs).len() == xs.len(),
    decreases xs.len(),
{
    if xs.len() > 0 {
        lemma_models_sorted(xs.drop_last());
        lemma_models_insert_sorted(sort_models(xs.drop_last()), xs.last(), 0);
    }
}

proof fn lemma_formulas_insert_sorted(xs: Seq<FormulaView>, x: FormulaView, j: int)
    requires
        0 <= j <= xs.len(),
        forall|a: int, b: int| 0 <= a < b < xs.len() ==> xs[a].formula_id <= xs[b].formula_id,
        forall|k: int| 0 <= k < j ==> xs[k].formula_id <= x.formula_id,
    ensures
        forall|a: int, b: int|
            0 <= a < b < insert_formula(xs, x, j).len() ==> insert_formula(xs, x, j)[a].formula_id <= insert_formula(xs, x, j)[b].formula_id,
        insert_formula(xs, x, j).len() == xs.len() + 1,
    decreases xs.len() - j,
{
    if j >= xs.len() {
        let r = xs.push(x);
        assert(r == insert_formula(xs, x, j));
        assert forall|a: int, b: int| 0 <= a < b < r.len() implies r[a].formula_id <= r[b].formula_id by {
            if b == xs.len() {
                assert(r[a] == xs[a]);
            } else {
                assert(r[a] == xs[a] && r[b] == xs[b]);
            }
        }
    } else if x.formula_id < xs[j].formula_id {
        let r = xs.insert(j, x);
        assert(r == insert_formula(xs, x, j));
        assert forall|a: int, b: int| 0 <= a < b < r.len() implies r[a].formula_id <= r[b].formula_id by {
            let ra = if a < j { xs[a] } else if a == j { x } else { xs[a - 1] };
            let rb = if b < j { xs[b] } else if b == j { x } else { xs[b - 1] };
            assert(r[a] == ra);
            assert(r[b] == rb);
            if a < j && b > j {
                assert(xs[a].formula_id <= xs[b - 1].formula_id);
            }
            if a == j {
                assert(xs[j].formula_id <= xs[b - 1].formula_id || b - 1 == j);
            }
        }
    } else {
        assert(insert_formula(xs, x, j) == insert_formula(xs, x, j + 1));
        lemma_formulas_insert_sorted(xs, x, j + 1);
    }
}

pub(crate) proof fn lemma_formulas_sorted(xs: Seq<FormulaView>)
    ensures
        forall|a: int, b: int| 0 <= a < b < sort_formulas(xs).len() ==> sort_formulas(xs)[a].formula_id <= sort_formulas(xs)[b].formula_id,
        sort_formulas(xs).len() == xs.len(),
    decreases xs.len(),
{
    if xs.len() > 0 {
        lemma_formulas_sorted(xs.drop_last());
        lemma_formulas_insert_sorted(sort_formulas(xs.drop_last()), xs.last(), 0);
    }
}

proof fn lemma_sheets_insert_sorted(xs: Seq<SheetView>, x: SheetView, j: int)
    requires
        0 <= j <= xs.len(),
        forall|a: int, b: int| 0 <= a < b < xs.len() ==> xs[a].id <= xs[b].id,
        forall|k: int| 0 <= k < j ==> xs[k].id <= x.id,
    ensures
        forall|a: int, b: int|
            0 <= a < b < insert_sheet(xs, x, j).len() ==> insert_sheet(xs, x, j)[a].id <= insert_sheet(xs, x, j)[b].id,
        insert_sheet(xs, x, j).len() == xs.len() + 1,
    decreases xs.len() - j,
{
    if j >= xs.len() {
        let r = xs.push(x);
        assert(r == insert_sheet(xs, x, j));
        assert forall|a: int, b: int| 0 <= a < b < r.len() implies r[a].id <= r[b].id by {
            if b == xs.len() {
                assert(r[a] == xs[a]);
            } else {
                assert(r[a] == xs[a] && r[b] == xs[b]);
            }
        }
    } else if x.id < xs[j].id {
        let r = xs.insert(j, x);
        assert(r == insert_sheet(xs, x, j));
        assert forall|a: int, b: int| 0 <= a < b < r.len() implies r[a].id <= r[b].id by {
            let ra = if a < j { xs[a] } else if a == j { x } else { xs[a - 1] };
            let rb = if b < j { xs[b] } else if b == j { x } else { xs[b - 1] };
            assert(r[a] == ra);
            assert(r[b] == rb);
            if a < j && b > j {
                assert(xs[a].id <= xs[b - 1].id);
            }
            if a == j {
                assert(xs[j].id <= xs[b - 1].id || b - 1 == j);
            }
        }
    } else {
        assert(insert_sheet(xs, x, j) == insert_sheet(xs, x, j + 1));
        lemma_sheets_insert_sorted(xs, x, j + 1);
    }
}

proof fn lemma_sheets_sorted(xs: Seq<SheetView>)
    ensures
        forall|a: int, b: int| 0 <= a < b < sort_sheets(xs).len() ==> sort_sheets(xs)[a].id <= sort_sheets(xs)[b].id,
        sort_sheets(xs).len() == xs.len(),
    decreases xs.len(),
{
    if xs.len() > 0 {
        lemma_sheets_sorted(xs.drop_last());
        lemma_sheets_insert_sorted(sort_sheets(xs.drop_last()), xs.last(), 0);
    }
}

proof fn lemma_dedup_models(xs: Seq<TableModelView>)
    requires
        forall|a: int, b: int| 0 <= a < b < xs.len() ==> xs[a].id <= xs[b].id,
    ensures
        forall|a: int, b: int| 0 <= a < b < dedup_models(xs).len() ==> dedup_models(xs)[a].id < dedup_models(xs)[b].id,
        xs.len() > 0 ==> dedup_models(xs).len() > 0 && dedup_models(xs).last().id == xs.last().id,
    decreases xs.len(),
{
    if xs.len() > 0 {
        let p = xs.drop_last();
        lemma_dedup_models(p);
        let r = dedup_models(p);
        if !(r.len() > 0 && r.last().id == xs.last().id) {
            let r2 = r.push(xs.last());
            if p.len() > 0 {
                assert(p.last() == xs[xs.len() - 2]);
                assert(xs[xs.len() - 2].id <= xs[xs.len() - 1].id);
            }
            assert forall|a: int, b: int| 0 <= a < b < r2.len() implies r2[a].id < r2[b].id by {
                if b == r.len() {
                    assert(r2[a] == r[a]);
                    if a < r.len() - 1 {
                        assert(r[a].id < r[r.len() - 1].id);
                    }
                } else {
                    assert(r2[a] == r[a] && r2[b] == r[b]);
                }
            }
        }
    }
}

/// Law: the table models of a spreadsheet come in strictly increasing order
/// of their ids, so no two share an id.
pub proof fn lemma_models_ordered(s: SpreadsheetView)
    ensures
        forall|a: int, b: int| 0 <= a < b < spec_models(s).len() ==> spec_models(s)[a].id < spec_models(s)[b].id,
{
    let all = spec_table_models(spec_objects(s.calculation_engine)) + spec_table_models(spec_objects(s.document));
    lemma_models_sorted(all);
    lemma_dedup_models(sort_models(all));
}

/// Law: the sheets of a spreadsheet come in order of their ids.
pub proof fn lemma_sheets_ordered(s: SpreadsheetView)
    ensures
        forall|a: int, b: int| 0 <= a < b < spec_sheets(s).len() ==> spec_sheets(s)[a].id <= spec_sheets(s)[b].id,
{
    let doc = spec_objects(s.document);
    lemma_sheets_sorted(spec_sheets_of(doc, spec_info_pairs(doc + spec_objects(s.calculation_engine))));
}

/// Law: the formula records of a spreadsheet come in order of their formula ids.
pub proof fn lemma_formulas_ordered(s: SpreadsheetView)
    ensures
        forall|a: int, b: int|
            0 <= a < b < spec_formulas(s).len() ==> spec_formulas(s)[a].formula_id <= spec_formulas(s)[b].formula_id,
{
    lemma_formulas_sorted(spec_formula_records(spec_objects(s.calculation_engine)));
}

} // verus!
