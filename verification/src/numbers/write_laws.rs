//! Laws of the workbook writer: what a written workbook reads back as.
use crate::numbers::cell::{le_u32_at, le_u64_at, spec_cell_record, CellRecordView};
use crate::numbers::datalist::{datalist_entry, datalist_scan, spec_string_datalist};
use crate::numbers::tile::{row_of, rows_scan, RawRowView};
use crate::numbers::rows::{resolved, resolved_row, resolved_slot, ResolvedCellView, ResolvedRowView};
use crate::numbers::tile::{filled_columns, slot, spec_raw_cells};
use crate::numbers::write::{
    cell_at, cell_record, le_bytes_u16, max_row_len, min_nat, offset_bytes, offset_slots, one_bits, record_head,
    row_fields, row_layout, rows_fields, text_key, tile_body, WritableCellView, datalist_body, sorted_texts,
    position_from, lemma_position,
};
use crate::style_catalog::insert_text;
use vstd::utf8::encode_utf8;
use crate::numbers::tile::spec_raw_rows;
use crate::iwa::{leading_entry, leading_len, spec_decode_archive, ArchiveView, IwaObjectReference};
use crate::encode::{bfield, single_object_archive, vfield};
use crate::iwa_laws::{lemma_single_object_body, lemma_single_object_read};
use crate::keynote::write::decimal;
use crate::numbers::rows::{merged_strings, spec_tile_tables, tile_tables};
use crate::numbers::spreadsheet::{
    insert_by_archive_path, sort_archives, spec_spreadsheet, spec_table_archives_from, table_prefix,
};
use crate::numbers::write::{
    datalist_path, numbers_base_members, numbers_members, spec_table_archive, spec_table_archives, table_members,
    table_strings, tile_path, WritableTableView,
};
use crate::package::{member_bytes, spec_package_entries, spec_read_archive, spec_zip, zip_fits, EntryView, PackageView};
use crate::text::{has_infix, has_prefix};
use crate::inspect::chars_less_from;
use crate::keynote::order_laws::lemma_less_common;
use crate::zip_laws::{end_record_unambiguous, lemma_member_read, lemma_package_writer_round_trip, written_package};
use crate::protobuf::{
    bytes_value, first_field, lemma_message_roundtrip, spec_decode_message, varint_value, encodable_field, le_bytes_u32, le_bytes_u64, lemma_field_at, spec_encode_field, spec_encode_fields,
    ProtoFieldView, ProtoValueView,
};
use vstd::prelude::*;

verus! {

// ───────────────────────────── cell records ─────────────────────────────

proof fn lemma_u64_bytes(v: u64)
    ensures
        ((v as u8) as u64 + ((v >> 8u64) as u8) as u64 * 0x100 + ((v >> 16u64) as u8) as u64 * 0x1_0000 + ((v
            >> 24u64) as u8) as u64 * 0x100_0000 + ((v >> 32u64) as u8) as u64 * 0x1_0000_0000 + ((v >> 40u64)
            as u8) as u64 * 0x100_0000_0000 + ((v >> 48u64) as u8) as u64 * 0x1_0000_0000_0000 + ((v >> 56u64)
            as u8) as u64 * 0x100_0000_0000_0000) as u64 == v,
{
    assert(((v as u8) as u64 + ((v >> 8u64) as u8) as u64 * 0x100 + ((v >> 16u64) as u8) as u64 * 0x1_0000 + ((v
        >> 24u64) as u8) as u64 * 0x100_0000 + ((v >> 32u64) as u8) as u64 * 0x1_0000_0000 + ((v >> 40u64) as u8)
        as u64 * 0x100_0000_0000 + ((v >> 48u64) as u8) as u64 * 0x1_0000_0000_0000 + ((v >> 56u64) as u8) as u64
        * 0x100_0000_0000_0000) as u64 == v) by (bit_vector);
}

proof fn lemma_u32_bytes(v: u32)
    ensures
        ((v as u8) as u32 + ((v >> 8u32) as u8) as u32 * 0x100 + ((v >> 16u32) as u8) as u32 * 0x1_0000 + ((v
            >> 24u32) as u8) as u32 * 0x100_0000) as u32 == v,
{
    assert(((v as u8) as u32 + ((v >> 8u32) as u8) as u32 * 0x100 + ((v >> 16u32) as u8) as u32 * 0x1_0000 + ((v
        >> 24u32) as u8) as u32 * 0x100_0000) as u32 == v) by (bit_vector);
}

/// What the record written for a cell reads back as.
pub open spec fn read_record(c: WritableCellView, key: u32) -> CellRecordView {
    match c {
        WritableCellView::Empty => CellRecordView::Empty,
        WritableCellView::Bool(b) => CellRecordView::Bool(b),
        WritableCellView::Number(x) => CellRecordView::Number(x),
        WritableCellView::Date(x) => CellRecordView::Date(x),
        WritableCellView::Duration(x) => CellRecordView::Duration(x),
        WritableCellView::Error => CellRecordView::Error,
        WritableCellView::Text(_) => CellRecordView::Text(key),
    }
}

proof fn lemma_head_value(t: u8, flags: u32, v: Seq<u8>, more: Seq<u8>)
    ensures
        ({
            let rec = record_head(t, flags) + v + more;
            &&& rec.len() == 12 + v.len() + more.len()
            &&& rec[0] == 5u8
            &&& rec[1] == t
            &&& le_u32_at(rec, 8) == flags
            &&& forall|i: int| 0 <= i < v.len() ==> rec[12 + i] == v[i]
        }),
{
    let rec = record_head(t, flags) + v + more;
    let fb = le_bytes_u32(flags);
    assert(rec[8] == fb[0] && rec[9] == fb[1] && rec[10] == fb[2] && rec[11] == fb[3]);
    lemma_u32_bytes(flags);
    assert forall|i: int| 0 <= i < v.len() implies rec[12 + i] == v[i] by {
        assert((record_head(t, flags) + v)[12 + i] == v[i]);
    }
}

proof fn lemma_u64_at_12(t: u8, flags: u32, x: u64, more: Seq<u8>)
    ensures
        le_u64_at(record_head(t, flags) + le_bytes_u64(x) + more, 12) == x,
        le_u32_at(record_head(t, flags) + le_bytes_u64(x) + more, 8) == flags,
        (record_head(t, flags) + le_bytes_u64(x) + more).len() >= 20,
{
    let v = le_bytes_u64(x);
    lemma_head_value(t, flags, v, more);
    let rec = record_head(t, flags) + v + more;
    assert(rec[12] == v[0] && rec[13] == v[1] && rec[14] == v[2] && rec[15] == v[3]);
    assert(rec[16] == v[4] && rec[17] == v[5] && rec[18] == v[6] && rec[19] == v[7]);
    lemma_u64_bytes(x);
}

/// The record written for a non-empty cell reads back as the cell, whatever
/// bytes follow it in the storage.
pub proof fn lemma_record_reads(c: WritableCellView, strings: Seq<Seq<char>>, more: Seq<u8>)
    requires
        !(c is Empty),
        cell_record(c, strings) is Some,
    ensures
        spec_cell_record(cell_record(c, strings)->Some_0 + more) == read_record(
            c,
            match c {
                WritableCellView::Text(t) => crate::numbers::write::text_key(strings, t)->Some_0,
                _ => 0,
            },
        ),
        cell_record(c, strings)->Some_0.len() >= 12,
{
    match c {
        WritableCellView::Number(x) => {
            lemma_u64_at_12(2, 2, x, more);
        },
        WritableCellView::Bool(b) => {
            let x: u64 = if b { one_bits() } else { 0 };
            lemma_u64_at_12(6, 2, x, more);
            assert(one_bits() % 0x8000_0000_0000_0000 != 0);
        },
        WritableCellView::Date(x) => {
            lemma_u64_at_12(5, 4, x, more);
        },
        WritableCellView::Duration(x) => {
            lemma_u64_at_12(7, 2, x, more);
        },
        WritableCellView::Error => {
            lemma_head_value(8, 0, seq![], more);
            assert(record_head(8, 0) + seq![] + more =~= record_head(8, 0) + more);
        },
        WritableCellView::Text(t) => {
            let k = crate::numbers::write::text_key(strings, t)->Some_0;
            let v = le_bytes_u32(k);
            lemma_head_value(3, 8, v, more);
            let rec = record_head(3, 8) + v + more;
            assert(rec[12] == v[0] && rec[13] == v[1] && rec[14] == v[2] && rec[15] == v[3]);
            lemma_u32_bytes(k);
        },
        WritableCellView::Empty => {},
    }
}

// ───────────────────────────── scanning encoded fields ─────────────────────────────

/// A field read as a varint or as length-delimited bytes.
pub open spec fn plain_field(f: ProtoFieldView) -> bool {
    encodable_field(f) && (f.value is Varint || f.value is LengthDelimited)
}

/// The rows that the length-delimited fields among `fs` hold.
pub open spec fn field_rows(fs: Seq<ProtoFieldView>) -> Seq<RawRowView>
    decreases fs.len(),
{
    if fs.len() == 0 {
        seq![]
    } else {
        (match fs[0].value {
            ProtoValueView::LengthDelimited(b) => match row_of(b) {
                Some(r) => seq![r],
                None => seq![],
            },
            _ => seq![],
        }) + field_rows(fs.drop_first())
    }
}

/// The list entries that the length-delimited fields among `fs` hold, set in
/// order over `m`.
pub open spec fn field_entries(fs: Seq<ProtoFieldView>, m: Map<u32, Seq<char>>) -> Map<u32, Seq<char>>
    decreases fs.len(),
{
    if fs.len() == 0 {
        m
    } else {
        field_entries(
            fs.drop_first(),
            match fs[0].value {
                ProtoValueView::LengthDelimited(b) => match datalist_entry(b) {
                    Some((k, s)) => m.insert(k, s),
                    None => m,
                },
                _ => m,
            },
        )
    }
}

proof fn lemma_plain_tail(fs: Seq<ProtoFieldView>)
    requires
        fs.len() > 0,
        forall|i: int| 0 <= i < fs.len() ==> plain_field(#[trigger] fs[i]),
    ensures
        forall|i: int| 0 <= i < fs.drop_first().len() ==> plain_field(#[trigger] fs.drop_first()[i]),
        spec_encode_fields(fs) == spec_encode_field(fs[0]) + spec_encode_fields(fs.drop_first()),
{
    assert forall|i: int| 0 <= i < fs.drop_first().len() implies plain_field(#[trigger] fs.drop_first()[i]) by {
        assert(fs.drop_first()[i] == fs[i + 1]);
    }
}

/// Scanning a tile body over encoded fields collects the rows they hold.
pub proof fn lemma_rows_scan_fields(body: Seq<u8>, c: int, fs: Seq<ProtoFieldView>, rows: Seq<RawRowView>)
    requires
        0 <= c <= body.len(),
        body.len() <= usize::MAX,
        forall|i: int| 0 <= i < fs.len() ==> plain_field(#[trigger] fs[i]),
        body.subrange(c, body.len() as int) == spec_encode_fields(fs),
    ensures
        rows_scan(body, c, rows) == rows + field_rows(fs),
    decreases fs.len(),
{
    if fs.len() == 0 {
        assert(body.subrange(c, body.len() as int).len() == 0);
        assert(rows + seq![] =~= rows);
    } else {
        let f = fs[0];
        let rest = spec_encode_fields(fs.drop_first());
        lemma_plain_tail(fs);
        lemma_field_at(body, c, f, rest);
        let next = c + spec_encode_field(f).len();
        let (tr, c1) = crate::protobuf::spec_read_varint(body, c);
        if let ProtoValueView::LengthDelimited(b) = f.value {
            match row_of(b) {
                Some(r) => {
                    lemma_rows_scan_fields(body, next, fs.drop_first(), rows.push(r));
                    assert(rows.push(r) + field_rows(fs.drop_first()) =~= rows + field_rows(fs));
                },
                None => {
                    lemma_rows_scan_fields(body, next, fs.drop_first(), rows);
                    assert(field_rows(fs) =~= field_rows(fs.drop_first()));
                },
            }
        } else {
            lemma_rows_scan_fields(body, next, fs.drop_first(), rows);
            assert(field_rows(fs) =~= field_rows(fs.drop_first()));
        }
    }
}

/// Scanning a list body over encoded fields sets the entries they hold.
pub proof fn lemma_datalist_scan_fields(body: Seq<u8>, c: int, fs: Seq<ProtoFieldView>, m: Map<u32, Seq<char>>)
    requires
        0 <= c <= body.len(),
        body.len() <= usize::MAX,
        forall|i: int| 0 <= i < fs.len() ==> plain_field(#[trigger] fs[i]),
        body.subrange(c, body.len() as int) == spec_encode_fields(fs),
    ensures
        datalist_scan(body, c, m) == field_entries(fs, m),
    decreases fs.len(),
{
    if fs.len() == 0 {
        assert(body.subrange(c, body.len() as int).len() == 0);
    } else {
        let f = fs[0];
        let rest = spec_encode_fields(fs.drop_first());
        lemma_plain_tail(fs);
        lemma_field_at(body, c, f, rest);
        let next = c + spec_encode_field(f).len();
        if let ProtoValueView::LengthDelimited(b) = f.value {
            match datalist_entry(b) {
                Some((k, s)) => {
                    lemma_datalist_scan_fields(body, next, fs.drop_first(), m.insert(k, s));
                },
                None => {
                    lemma_datalist_scan_fields(body, next, fs.drop_first(), m);
                },
            }
        } else {
            lemma_datalist_scan_fields(body, next, fs.drop_first(), m);
        }
    }
}

// ───────────────────────────── rows ─────────────────────────────

/// The storage record of column `c` of a laid-out row.
pub open spec fn column_record_bytes(row: Seq<WritableCellView>, c: int, strings: Seq<Seq<char>>) -> Seq<u8> {
    cell_record(cell_at(row, c), strings)->Some_0
}

proof fn lemma_layout(row: Seq<WritableCellView>, n: nat, strings: Seq<Seq<char>>)
    requires
        n <= 255,
        row_layout(row, n, strings) is Ok,
    ensures
        ({
            let (st, offs, leg) = row_layout(row, n, strings)->Ok_0;
            &&& offs.len() == 255
            &&& st.len() <= 0xffff + 0x20
            &&& forall|c: int| n <= c < 255 ==> #[trigger] offs[c] == 0xffffu16
            &&& forall|c: int|
                0 <= c < n ==> (#[trigger] cell_at(row, c) is Empty ==> offs[c] == 0xffffu16)
            &&& forall|c: int|
                0 <= c < n && !(#[trigger] cell_at(row, c) is Empty) ==> {
                    &&& cell_record(cell_at(row, c), strings) is Some
                    &&& offs[c] as int + column_record_bytes(row, c, strings).len() <= st.len()
                    &&& st.subrange(offs[c] as int, offs[c] as int + column_record_bytes(row, c, strings).len())
                        == column_record_bytes(row, c, strings)
                }
        }),
    decreases n,
{
    if n > 0 {
        let m = (n - 1) as nat;
        lemma_layout(row, m, strings);
        let (st, offs, leg) = row_layout(row, m, strings)->Ok_0;
        let c = m as int;
        let cell = cell_at(row, c);
        if !(cell is Empty) {
            let rec = cell_record(cell, strings)->Some_0;
            let st2 = st + rec;
            let offs2 = offs.update(c, st.len() as u16);
            assert(row_layout(row, n, strings)->Ok_0 == (st2, offs2, leg + crate::numbers::write::column_record(
                c as u16,
                st.len() as u16,
                crate::numbers::write::cell_kind(cell),
            )));
            assert(rec.len() <= 20);
            assert forall|k: int| 0 <= k < n && !(#[trigger] cell_at(row, k) is Empty) implies {
                &&& cell_record(cell_at(row, k), strings) is Some
                &&& offs2[k] as int + column_record_bytes(row, k, strings).len() <= st2.len()
                &&& st2.subrange(offs2[k] as int, offs2[k] as int + column_record_bytes(row, k, strings).len())
                    == column_record_bytes(row, k, strings)
            } by {
                if k < c {
                    let o = offs[k] as int;
                    let l = column_record_bytes(row, k, strings).len();
                    assert(st2.subrange(o, o + l) =~= st.subrange(o, o + l));
                } else {
                    assert(st2.subrange(st.len() as int, (st.len() + rec.len()) as int) =~= rec);
                }
            }
        }
    }
}

/// One past the last written (non-empty) cell among the first `k` columns.
pub open spec fn written_width(row: Seq<WritableCellView>, k: int) -> int
    decreases k,
{
    if k <= 0 {
        0
    } else if !(cell_at(row, k - 1) is Empty) {
        k
    } else {
        written_width(row, k - 1)
    }
}

proof fn lemma_offset_bytes(offs: Seq<u16>)
    ensures
        offset_bytes(offs).len() == 2 * offs.len(),
        forall|c: int| 0 <= c < offs.len() ==> slot(offset_bytes(offs), c) == #[trigger] offs[c],
    decreases offs.len(),
{
    if offs.len() > 0 {
        let p = offs.drop_last();
        lemma_offset_bytes(p);
        let ob = offset_bytes(offs);
        assert forall|c: int| 0 <= c < offs.len() implies slot(ob, c) == #[trigger] offs[c] by {
            if c < p.len() {
                assert(ob[2 * c] == offset_bytes(p)[2 * c]);
                assert(ob[2 * c + 1] == offset_bytes(p)[2 * c + 1]);
                assert(p[c] == offs[c]);
            } else {
                let x = offs.last();
                assert(ob[2 * c] == le_bytes_u16(x)[0]);
                assert(ob[2 * c + 1] == le_bytes_u16(x)[1]);
                assert(((x as u8) as nat + 256 * ((x >> 8u16) as u8) as nat) as u16 == x) by (nonlinear_arith)
                    requires
                        true,
                {
                    assert(((x as u8) as u16 + 256 * ((x >> 8u16) as u8) as u16) == x) by (bit_vector);
                }
            }
        }
    }
}

/// What a written cell reads back as, its text resolved through the list.
pub open spec fn read_cell(c: WritableCellView) -> ResolvedCellView {
    match c {
        WritableCellView::Empty => ResolvedCellView::Empty,
        WritableCellView::Bool(b) => ResolvedCellView::Bool(b),
        WritableCellView::Number(x) => ResolvedCellView::Number(x),
        WritableCellView::Date(x) => ResolvedCellView::Date(x),
        WritableCellView::Duration(x) => ResolvedCellView::Duration(x),
        WritableCellView::Error => ResolvedCellView::Error,
        WritableCellView::Text(t) => ResolvedCellView::Text(t),
    }
}

/// The row read back from written row `i`: its cells up to the last
/// non-empty one.
pub open spec fn read_row(i: int, row: Seq<WritableCellView>) -> ResolvedRowView {
    ResolvedRowView {
        index: i as u64,
        cells: Seq::new(written_width(row, row.len() as int) as nat, |c: int| read_cell(row[c])),
    }
}

/// No non-empty cell of a row laid out over `n` columns has its record at
/// the offset that marks an empty slot.
pub open spec fn offsets_readable(row: Seq<WritableCellView>, n: nat, strings: Seq<Seq<char>>) -> bool {
    forall|c: int|
        0 <= c < n && !(#[trigger] cell_at(row, c) is Empty) ==> row_layout(row, n, strings)->Ok_0.1[c] != 0xffffu16
}

/// Every text cell of the row has a key that `m` maps to its text.
pub open spec fn texts_resolve(row: Seq<WritableCellView>, strings: Seq<Seq<char>>, m: Map<u32, Seq<char>>) -> bool {
    forall|c: int|
        0 <= c < row.len() ==> (#[trigger] row[c] matches WritableCellView::Text(t) ==> text_key(strings, t) matches Some(
            k,
        ) && m.contains_key(k) && m[k] == t)
}

proof fn lemma_width_past_end(row: Seq<WritableCellView>, k: int)
    requires
        k >= row.len(),
    ensures
        written_width(row, k) == written_width(row, row.len() as int),
    decreases k,
{
    if k > row.len() {
        lemma_width_past_end(row, k - 1);
    }
}

proof fn lemma_width_bound(row: Seq<WritableCellView>, k: int)
    ensures
        0 <= written_width(row, k),
        k >= 0 ==> written_width(row, k) <= k,
        written_width(row, k) <= row.len() || written_width(row, k) == 0,
    decreases k,
{
    if k > 0 {
        lemma_width_bound(row, k - 1);
    }
}

proof fn lemma_filled(row: Seq<WritableCellView>, ob: Seq<u8>, offs: Seq<u16>, k: int)
    requires
        0 <= k <= 255,
        offs.len() == 255,
        ob.len() == 510,
        forall|c: int| 0 <= c < 255 ==> slot(ob, c) == #[trigger] offs[c],
        forall|c: int| 0 <= c < 255 ==> (#[trigger] cell_at(row, c) is Empty <==> offs[c] == 0xffffu16),
    ensures
        filled_columns(ob, k) == written_width(row, k),
    decreases k,
{
    if k > 0 {
        assert(slot(ob, k - 1) == offs[k - 1]);
        assert(cell_at(row, k - 1) is Empty <==> offs[k - 1] == 0xffffu16);
        lemma_filled(row, ob, offs, k - 1);
    }
}

/// A written row message reads back as the row: its index, and its cells up
/// to the last non-empty one, text resolved through `m`.
pub proof fn lemma_row_reads(i: nat, row: Seq<WritableCellView>, cc: nat, strings: Seq<Seq<char>>, m: Map<u32, Seq<char>>)
    requires
        row.len() <= cc <= 255,
        i <= u64::MAX,
        row_fields(i, row, cc, strings) is Ok,
        offsets_readable(row, cc, strings),
        texts_resolve(row, strings, m),
        spec_encode_fields(row_fields(i, row, cc, strings)->Ok_0).len() <= usize::MAX,
    ensures
        row_of(spec_encode_fields(row_fields(i, row, cc, strings)->Ok_0)) matches Some(r) && resolved_row(r, m, 0)
            == read_row(i as int, row),
{
    let rf = row_fields(i, row, cc, strings)->Ok_0;
    assert(min_nat(cc, offset_slots()) == cc);
    let (st, offs, leg) = row_layout(row, cc, strings)->Ok_0;
    lemma_layout(row, cc, strings);
    let ob = offset_bytes(offs);
    lemma_offset_bytes(offs);
    assert forall|k: int| 0 <= k < rf.len() implies encodable_field(#[trigger] rf[k]) by {}
    lemma_message_roundtrip(rf);
    reveal_with_fuel(first_field, 8);
    assert(first_field(rf, 1) == Some(rf[0]));
    assert(first_field(rf, 6) == Some(rf[5]));
    assert(first_field(rf, 7) == Some(rf[6]));
    assert forall|c: int| 0 <= c < 255 implies (#[trigger] cell_at(row, c) is Empty <==> offs[c] == 0xffffu16) by {
        if c >= cc {
            assert(cell_at(row, c) is Empty);
        }
    }
    lemma_filled(row, ob, offs, 255);
    lemma_width_past_end(row, 255);
    lemma_width_bound(row, row.len() as int);
    let w = written_width(row, row.len() as int);
    let r = row_of(spec_encode_fields(rf))->Some_0;
    assert(r.cells.len() == w);
    let got = resolved_row(r, m, 0);
    let want = read_row(i as int, row);
    assert forall|c: int| 0 <= c < w implies got.cells[c] == want.cells[c] by {
        assert(r.cells[c] == crate::numbers::tile::cell_record(st, slot(ob, c)));
        assert(slot(ob, c) == offs[c]);
        assert(cell_at(row, c) == row[c]);
        if !(row[c] is Empty) {
            let o = offs[c] as int;
            let rec = column_record_bytes(row, c, strings);
            let more = st.subrange(o + rec.len(), st.len() as int);
            assert(st.subrange(o, st.len() as int) =~= rec + more);
            lemma_record_reads(row[c], strings, more);
            assert(texts_resolve(row, strings, m));
        }
    }
    assert(got.cells =~= want.cells);
}

// ───────────────────────────── tiles ─────────────────────────────

/// The rows read back from the written rows.
pub open spec fn read_rows(rows: Seq<Seq<WritableCellView>>) -> Seq<ResolvedRowView> {
    Seq::new(rows.len(), |i: int| read_row(i, rows[i]))
}

proof fn lemma_field_rows_append(a: Seq<ProtoFieldView>, b: Seq<ProtoFieldView>)
    ensures
        field_rows(a + b) == field_rows(a) + field_rows(b),
    decreases a.len(),
{
    if a.len() == 0 {
        assert(a + b =~= b);
        assert(field_rows(a) + field_rows(b) =~= field_rows(b));
    } else {
        lemma_field_rows_append(a.drop_first(), b);
        assert((a + b).drop_first() =~= a.drop_first() + b);
        assert((a + b)[0] == a[0]);
        assert(field_rows(a + b) =~= field_rows(a) + field_rows(b));
    }
}

proof fn lemma_field_rows_varints(fs: Seq<ProtoFieldView>)
    requires
        forall|i: int| 0 <= i < fs.len() ==> (#[trigger] fs[i]).value is Varint,
    ensures
        field_rows(fs) == Seq::<RawRowView>::empty(),
    decreases fs.len(),
{
    if fs.len() > 0 {
        assert(fs[0].value is Varint);
        assert forall|i: int| 0 <= i < fs.drop_first().len() implies (#[trigger] fs.drop_first()[i]).value is Varint by {
            assert(fs.drop_first()[i] == fs[i + 1]);
        }
        lemma_field_rows_varints(fs.drop_first());
        assert(field_rows(fs) =~= Seq::<RawRowView>::empty());
    }
}

/// The bytes of each row field of a tile.
pub open spec fn row_bytes(rows: Seq<Seq<WritableCellView>>, k: int, cc: nat, strings: Seq<Seq<char>>) -> Seq<u8> {
    spec_encode_fields(row_fields(k as nat, rows[k], cc, strings)->Ok_0)
}

proof fn lemma_rows_fields(rows: Seq<Seq<WritableCellView>>, n: nat, cc: nat, strings: Seq<Seq<char>>)
    requires
        n <= rows.len(),
        rows_fields(rows, n, cc, strings) is Ok,
    ensures
        rows_fields(rows, n, cc, strings)->Ok_0.len() == n,
        forall|k: int|
            0 <= k < n ==> row_fields(k as nat, rows[k], cc, strings) is Ok && (#[trigger] rows_fields(
                rows,
                n,
                cc,
                strings,
            )->Ok_0[k]) == bfield(5, row_bytes(rows, k, cc, strings)),
    decreases n,
{
    if n > 0 {
        lemma_rows_fields(rows, (n - 1) as nat, cc, strings);
    }
}

proof fn lemma_field_rows_of_rows(fs: Seq<ProtoFieldView>, rs: Seq<RawRowView>)
    requires
        fs.len() == rs.len(),
        forall|k: int|
            0 <= k < fs.len() ==> ((#[trigger] fs[k]).value matches ProtoValueView::LengthDelimited(b) && row_of(b)
                == Some(rs[k])),
    ensures
        field_rows(fs) == rs,
    decreases fs.len(),
{
    if fs.len() > 0 {
        assert forall|k: int| 0 <= k < fs.drop_first().len() implies ((#[trigger] fs.drop_first()[k]).value matches ProtoValueView::LengthDelimited(
            b,
        ) && row_of(b) == Some(rs.drop_first()[k])) by {
            assert(fs.drop_first()[k] == fs[k + 1]);
        }
        lemma_field_rows_of_rows(fs.drop_first(), rs.drop_first());
        assert(fs[0].value matches ProtoValueView::LengthDelimited(b) && row_of(b) == Some(rs[0]));
        assert(field_rows(fs) =~= seq![rs[0]] + rs.drop_first());
    }
}

proof fn lemma_payload_len(fs: Seq<ProtoFieldView>)
    ensures
        forall|k: int|
            0 <= k < fs.len() ==> ((#[trigger] fs[k]).value matches ProtoValueView::LengthDelimited(b) ==> b.len()
                <= spec_encode_fields(fs).len()),
        fs.len() <= spec_encode_fields(fs).len(),
    decreases fs.len(),
{
    if fs.len() > 0 {
        lemma_payload_len(fs.drop_first());
        crate::protobuf::lemma_encode_varint_len(crate::protobuf::field_tag(fs[0]));
        assert forall|k: int|
            0 <= k < fs.len() implies ((#[trigger] fs[k]).value matches ProtoValueView::LengthDelimited(b) ==> b.len()
            <= spec_encode_fields(fs).len()) by {
            if k > 0 {
                assert(fs[k] == fs.drop_first()[k - 1]);
            }
        }
    }
}

proof fn lemma_max_row_len(rows: Seq<Seq<WritableCellView>>, i: int)
    requires
        0 <= i < rows.len(),
    ensures
        rows[i].len() <= max_row_len(rows),
    decreases rows.len(),
{
    if i < rows.len() - 1 {
        assert(rows.drop_last()[i] == rows[i]);
        lemma_max_row_len(rows.drop_last(), i);
    }
}

/// A written tile body reads back as the written rows, each with its index
/// and its cells up to the last non-empty one, text resolved through `m`.
#[verifier::spinoff_prover]
#[verifier::rlimit(60)]
pub proof fn lemma_tile_reads(rows: Seq<Seq<WritableCellView>>, strings: Seq<Seq<char>>, m: Map<u32, Seq<char>>)
    requires
        max_row_len(rows) <= 255,
        tile_body(rows, strings) is Ok,
        tile_body(rows, strings)->Ok_0.len() <= usize::MAX,
        forall|i: int| 0 <= i < rows.len() ==> offsets_readable(#[trigger] rows[i], max_row_len(rows), strings),
        forall|i: int| 0 <= i < rows.len() ==> texts_resolve(#[trigger] rows[i], strings, m),
    ensures
        spec_raw_rows(tile_body(rows, strings)->Ok_0).map_values(|r: RawRowView| resolved_row(r, m, 0)) == read_rows(
            rows,
        ),
{
    let cc = max_row_len(rows);
    let n = rows.len();
    let fs = rows_fields(rows, n, cc, strings)->Ok_0;
    lemma_rows_fields(rows, n, cc, strings);
    let pre = seq![vfield(1, 0), vfield(2, 0), vfield(3, 0), vfield(4, rows.len() as u64)];
    let post = seq![vfield(6, 5), vfield(7, 1)];
    let all = pre + fs + post;
    let body = tile_body(rows, strings)->Ok_0;
    assert(body == spec_encode_fields(all));
    lemma_payload_len(all);
    assert forall|i: int| 0 <= i < all.len() implies plain_field(#[trigger] all[i]) by {
        if pre.len() <= i < pre.len() + fs.len() {
            assert(all[i] == fs[i - pre.len()]);
        }
    }
    // No leading reference records: the body starts with a varint field.
    crate::protobuf::lemma_plain_first(all);
    assert(body.subrange(0, body.len() as int) =~= body);
    lemma_field_at(body, 0, all[0], spec_encode_fields(all.drop_first()));
    assert(leading_entry(body, 0) is None);
    assert(leading_len(body, 0) == 0);
    lemma_rows_scan_fields(body, 0, all, seq![]);
    lemma_field_rows_append(pre, fs);
    lemma_field_rows_append(pre + fs, post);
    lemma_field_rows_varints(pre);
    lemma_field_rows_varints(post);
    let rs = Seq::new(n, |k: int| row_of(row_bytes(rows, k, cc, strings))->Some_0);
    assert forall|k: int| 0 <= k < n implies row_of(row_bytes(rows, k, cc, strings)) is Some && resolved_row(
        #[trigger] rs[k],
        m,
        0,
    ) == read_row(k, rows[k]) by {
        lemma_max_row_len(rows, k);
        assert(all[pre.len() + k] == fs[k]);
        assert(fs[k] == bfield(5, row_bytes(rows, k, cc, strings)));
        lemma_row_reads(k as nat, rows[k], cc, strings, m);
    }
    lemma_field_rows_of_rows(fs, rs);
    assert(seq![] + (field_rows(pre) + field_rows(fs)) + field_rows(post) =~= rs);
    assert(rs.map_values(|r: RawRowView| resolved_row(r, m, 0)) =~= read_rows(rows));
}

// ───────────────────────────── string lists ─────────────────────────────

proof fn lemma_insert_text_members(xs: Seq<Seq<char>>, x: Seq<char>, j: int)
    requires
        0 <= j,
    ensures
        insert_text(xs, x, j).contains(x),
        forall|y: Seq<char>| xs.contains(y) ==> #[trigger] insert_text(xs, x, j).contains(y),
        forall|y: Seq<char>| #[trigger] insert_text(xs, x, j).contains(y) ==> xs.contains(y) || y == x,
    decreases xs.len() - j,
{
    let r = insert_text(xs, x, j);
    if j >= xs.len() {
        assert(r == xs.push(x));
        assert(r[xs.len() as int] == x);
        assert forall|y: Seq<char>| xs.contains(y) implies #[trigger] r.contains(y) by {
            let w = choose|w: int| 0 <= w < xs.len() && xs[w] == y;
            assert(r[w] == y);
        }
        assert forall|y: Seq<char>| #[trigger] r.contains(y) implies xs.contains(y) || y == x by {
            let w = choose|w: int| 0 <= w < r.len() && r[w] == y;
            if w < xs.len() {
                assert(xs[w] == y);
            }
        }
    } else if xs[j] == x {
        assert(r == xs);
        assert(xs[j] == x);
    } else if crate::inspect::chars_less_from(x, xs[j], 0) {
        assert(r == xs.insert(j, x));
        assert(r[j] == x);
        assert forall|y: Seq<char>| xs.contains(y) implies #[trigger] r.contains(y) by {
            let w = choose|w: int| 0 <= w < xs.len() && xs[w] == y;
            if w < j {
                assert(r[w] == y);
            } else {
                assert(r[w + 1] == y);
            }
        }
        assert forall|y: Seq<char>| #[trigger] r.contains(y) implies xs.contains(y) || y == x by {
            let w = choose|w: int| 0 <= w < r.len() && r[w] == y;
            if w < j {
                assert(xs[w] == y);
            } else if w > j {
                assert(xs[w - 1] == y);
            }
        }
    } else {
        assert(r == insert_text(xs, x, j + 1));
        lemma_insert_text_members(xs, x, j + 1);
    }
}

proof fn lemma_sorted_members(xs: Seq<Seq<char>>)
    ensures
        forall|y: Seq<char>| #[trigger] sorted_texts(xs).contains(y) <==> xs.contains(y),
    decreases xs.len(),
{
    if xs.len() > 0 {
        let p = xs.drop_last();
        lemma_sorted_members(p);
        lemma_insert_text_members(sorted_texts(p), xs.last(), 0);
        assert forall|y: Seq<char>| #[trigger] sorted_texts(xs).contains(y) <==> xs.contains(y) by {
            if xs.contains(y) {
                let w = choose|w: int| 0 <= w < xs.len() && xs[w] == y;
                if w < p.len() {
                    assert(p[w] == y);
                    assert(p.contains(y));
                }
            }
            if p.contains(y) {
                let w = choose|w: int| 0 <= w < p.len() && p[w] == y;
                assert(xs[w] == y);
            }
            assert(xs[xs.len() - 1] == xs.last());
        }
    }
}

/// The entry a field of a list body holds.
pub open spec fn entry_of(f: ProtoFieldView) -> Option<(u32, Seq<char>)> {
    match f.value {
        ProtoValueView::LengthDelimited(b) => datalist_entry(b),
        _ => None,
    }
}

proof fn lemma_entries_final(es: Seq<ProtoFieldView>, m: Map<u32, Seq<char>>, k: u32, t: Seq<char>)
    requires
        forall|i: int| 0 <= i < es.len() ==> (#[trigger] entry_of(es[i]) matches Some((k2, s2)) ==> (k2 == k ==> s2
            == t)),
        (m.contains_key(k) && m[k] == t) || (exists|j: int| 0 <= j < es.len() && #[trigger] entry_of(es[j]) == Some((k, t))),
    ensures
        field_entries(es, m).contains_key(k),
        field_entries(es, m)[k] == t,
    decreases es.len(),
{
    if es.len() == 0 {
        if !(m.contains_key(k) && m[k] == t) {
            let j = choose|j: int| 0 <= j < es.len() && #[trigger] entry_of(es[j]) == Some((k, t));
        }
    } else {
        let f = es[0];
        let m2 = match f.value {
            ProtoValueView::LengthDelimited(b) => match datalist_entry(b) {
                Some((k1, s1)) => m.insert(k1, s1),
                None => m,
            },
            _ => m,
        };
        assert(entry_of(es[0]) == entry_of(f));
        assert forall|i: int| 0 <= i < es.drop_first().len() implies (#[trigger] entry_of(es.drop_first()[i]) matches Some((k2, s2)) ==> (k2 == k ==> s2 == t)) by {
            assert(es.drop_first()[i] == es[i + 1]);
            assert(entry_of(es[i + 1]) == entry_of(es.drop_first()[i]));
        }
        if m2.contains_key(k) && m2[k] == t {
            lemma_entries_final(es.drop_first(), m2, k, t);
        } else {
            if m.contains_key(k) && m[k] == t {
                assert(false);
            } else {
                let j = choose|j: int| 0 <= j < es.len() && #[trigger] entry_of(es[j]) == Some((k, t));
                if j == 0 {
                    assert(false);
                } else {
                    assert(es.drop_first()[j - 1] == es[j]);
                    assert(entry_of(es.drop_first()[j - 1]) == Some((k, t)));
                    lemma_entries_final(es.drop_first(), m2, k, t);
                }
            }
        }
        assert(field_entries(es, m) == field_entries(es.drop_first(), m2));
    }
}

proof fn lemma_entry_reads(strings: Seq<Seq<char>>, t: Seq<char>)
    requires
        position_from(strings, t, 0) + 1 <= u32::MAX,
        0 <= position_from(strings, t, 0),
        spec_encode_fields(
            seq![
                vfield(1, (position_from(strings, t, 0) + 1) as u64),
                vfield(2, 1),
                bfield(3, encode_utf8(t)),
            ],
        ).len() <= usize::MAX,
    ensures
        entry_of(crate::numbers::write::datalist_entry(strings, t)) == Some(
            ((position_from(strings, t, 0) + 1) as u32, t),
        ),
{
    broadcast use vstd::utf8::encode_utf8_valid_utf8, vstd::utf8::encode_utf8_decode_utf8;

    let fs = seq![vfield(1, (position_from(strings, t, 0) + 1) as u64), vfield(2, 1), bfield(3, encode_utf8(t))];
    lemma_message_roundtrip(fs);
    reveal_with_fuel(first_field, 4);
    assert(first_field(fs, 1) == Some(fs[0]));
    assert(first_field(fs, 3) == Some(fs[2]));
}

/// The fields of a written string list's entries.
pub open spec fn entry_fields(strings: Seq<Seq<char>>) -> Seq<ProtoFieldView> {
    sorted_texts(strings).map_values(|u: Seq<char>| crate::numbers::write::datalist_entry(strings, u))
}

proof fn lemma_sorted_entry(strings: Seq<Seq<char>>, i: int)
    requires
        strings.len() < u32::MAX,
        0 <= i < sorted_texts(strings).len(),
        entry_fields(strings)[i].value matches ProtoValueView::LengthDelimited(b) && b.len() <= usize::MAX,
    ensures
        entry_of(entry_fields(strings)[i]) == Some(
            ((position_from(strings, sorted_texts(strings)[i], 0) + 1) as u32, sorted_texts(strings)[i]),
        ),
        strings.contains(sorted_texts(strings)[i]),
{
    let sorted = sorted_texts(strings);
    lemma_sorted_members(strings);
    assert(sorted.contains(sorted[i]));
    let u = sorted[i];
    let k = choose|k: int| 0 <= k < strings.len() && strings[k] == u;
    lemma_position(strings, u, 0, k);
    lemma_entry_reads(strings, u);
}

proof fn lemma_list_fields(strings: Seq<Seq<char>>)
    requires
        strings.len() < u32::MAX,
        datalist_body(strings).len() <= usize::MAX,
    ensures
        spec_string_datalist(datalist_body(strings)) == field_entries(entry_fields(strings), Map::empty()),
        forall|i: int|
            0 <= i < entry_fields(strings).len() ==> ((#[trigger] entry_fields(strings)[i]).value matches ProtoValueView::LengthDelimited(
                b,
            ) && b.len() <= usize::MAX),
{
    let es = entry_fields(strings);
    let all = seq![vfield(1, 1), vfield(2, (strings.len() + 1) as u64)] + es;
    let body = datalist_body(strings);
    let m = Map::<u32, Seq<char>>::empty();
    assert(body == spec_encode_fields(all));
    lemma_payload_len(all);
    assert forall|i: int| 0 <= i < all.len() implies plain_field(#[trigger] all[i]) by {}
    crate::protobuf::lemma_plain_first(all);
    assert(body.subrange(0, body.len() as int) =~= body);
    lemma_field_at(body, 0, all[0], spec_encode_fields(all.drop_first()));
    assert(leading_entry(body, 0) is None);
    assert(leading_len(body, 0) == 0);
    lemma_datalist_scan_fields(body, 0, all, m);
    assert(field_entries(all, m) == field_entries(all.drop_first(), m));
    assert(all.drop_first()[0] == all[1]);
    assert(field_entries(all.drop_first(), m) == field_entries(all.drop_first().drop_first(), m));
    assert(all.drop_first().drop_first() =~= es);
    assert forall|i: int|
        0 <= i < es.len() implies ((#[trigger] es[i]).value matches ProtoValueView::LengthDelimited(b) && b.len()
        <= usize::MAX) by {
        assert(all[i + 2] == es[i]);
    }
}

/// A written string list reads back as the map from each string's key to
/// the string.
pub proof fn lemma_datalist_reads(strings: Seq<Seq<char>>)
    requires
        strings.len() < u32::MAX,
        datalist_body(strings).len() <= usize::MAX,
    ensures
        forall|t: Seq<char>|
            #[trigger] strings.contains(t) ==> (text_key(strings, t) matches Some(k) && spec_string_datalist(
                datalist_body(strings),
            ).contains_key(k) && spec_string_datalist(datalist_body(strings))[k] == t),
{
    let sorted = sorted_texts(strings);
    let es = entry_fields(strings);
    lemma_list_fields(strings);
    lemma_sorted_members(strings);
    assert forall|t: Seq<char>| #[trigger] strings.contains(t) implies (text_key(strings, t) matches Some(k)
        && field_entries(es, Map::empty()).contains_key(k) && field_entries(es, Map::empty())[k] == t) by {
        let kk = choose|kk: int| 0 <= kk < strings.len() && strings[kk] == t;
        lemma_position(strings, t, 0, kk);
        let key = (position_from(strings, t, 0) + 1) as u32;
        assert(sorted.contains(t));
        let j = choose|j: int| 0 <= j < sorted.len() && sorted[j] == t;
        lemma_sorted_entry(strings, j);
        assert(entry_of(es[j]) == Some((key, t)));
        assert forall|i: int| 0 <= i < es.len() implies (#[trigger] entry_of(es[i]) matches Some((k2, s2)) ==> (k2
            == key ==> s2 == t)) by {
            lemma_sorted_entry(strings, i);
            let u = sorted[i];
            let ku = choose|ku: int| 0 <= ku < strings.len() && strings[ku] == u;
            lemma_position(strings, u, 0, ku);
        }
        lemma_entries_final(es, Map::empty(), key, t);
    }
}

// ───────────────────────────── the written package ─────────────────────────────

#[verifier::spinoff_prover]
#[verifier::rlimit(60)]
proof fn lemma_one_table_archives(t: WritableTableView)
    ensures
        spec_table_archives(seq![t], 1) == match spec_table_archive(0, t) {
            Ok(a) => Ok(seq![a]),
            Err(e) => Err(e),
        },
{
    let ts = seq![t];
    assert(ts[0] == t);
    assert(spec_table_archives(ts, 0) == Ok::<Seq<crate::numbers::write::EncodedTableArchiveView>, crate::error::Error>(
        seq![],
    ));
    if let Ok(a) = spec_table_archive(0, t) {
        assert(seq![].push(a) =~= seq![a]);
    }
}

proof fn lemma_one_table_list(a: crate::numbers::write::EncodedTableArchiveView)
    ensures
        table_members(seq![a]) == seq![(a.datalist_path, a.datalist), (a.tile_path, a.tile)],
{
    let es = seq![a];
    assert(es.drop_last() =~= Seq::<crate::numbers::write::EncodedTableArchiveView>::empty());
    assert(table_members(es.drop_last()) == Seq::<(Seq<char>, Seq<u8>)>::empty());
    assert(es.last() == a);
    assert(table_members(es) =~= seq![(a.datalist_path, a.datalist), (a.tile_path, a.tile)]);
}

#[verifier::spinoff_prover]
proof fn lemma_one_table_members(t: WritableTableView)
    requires
        numbers_members(seq![t]) is Ok,
    ensures
        spec_table_archive(0, t) is Ok,
        numbers_members(seq![t])->Ok_0 == numbers_base_members() + seq![
            (spec_table_archive(0, t)->Ok_0.datalist_path, spec_table_archive(0, t)->Ok_0.datalist),
            (spec_table_archive(0, t)->Ok_0.tile_path, spec_table_archive(0, t)->Ok_0.tile),
        ],
        spec_table_archive(0, t)->Ok_0.datalist_path == datalist_path(1),
        spec_table_archive(0, t)->Ok_0.tile_path == tile_path(1),
{
    lemma_one_table_archives(t);
    let a = spec_table_archive(0, t)->Ok_0;
    lemma_one_table_list(a);
}

/// Each path of a written one-table workbook, told apart by its length and
/// its seventh character.
pub open spec fn path_code(p: Seq<char>) -> (nat, char) {
    (p.len(), p[6])
}

proof fn lemma_table_paths()
    ensures
        datalist_path(1) =~= "Index/Tables/DataList-1-1.iwa"@,
        tile_path(1) =~= "Index/Tables/Tile-1-1.iwa"@,
{
    reveal_strlit("Index/Tables/DataList-");
    reveal_strlit("Index/Tables/Tile-");
    reveal_strlit("-1.iwa");
    reveal_strlit("Index/Tables/DataList-1-1.iwa");
    reveal_strlit("Index/Tables/Tile-1-1.iwa");
    assert(decimal(1) =~= seq!['1']);
}

/// The codes of the paths of a written one-table workbook, in order.
pub open spec fn member_codes() -> Seq<(nat, char)> {
    seq![
        (25nat, 't'),
        (27nat, 't'),
        (34nat, 't'),
        (18nat, 'D'),
        (26nat, 'D'),
        (18nat, 'M'),
        (25nat, 'O'),
        (27nat, 'C'),
        (19nat, 'V'),
        (33nat, 'A'),
        (28nat, 'D'),
        (29nat, 'T'),
        (25nat, 'T'),
    ]
}

#[verifier::spinoff_prover]
#[verifier::rlimit(60)]
proof fn lemma_member_codes(ws: Seq<(Seq<char>, Seq<u8>)>, d: Seq<u8>, tt: Seq<u8>)
    requires
        ws == numbers_base_members() + seq![(datalist_path(1), d), (tile_path(1), tt)],
    ensures
        ws.len() == 13,
        forall|i: int| 0 <= i < 13 ==> path_code(#[trigger] ws[i].0) == member_codes()[i],
{
    let codes = member_codes();
    lemma_table_paths();
    assert(ws.len() == 13);
    assert(path_code(ws[0].0) == codes[0]) by {
        reveal_strlit("Metadata/Properties.plist");
    }
    assert(path_code(ws[1].0) == codes[1]) by {
        reveal_strlit("Metadata/DocumentIdentifier");
    }
    assert(path_code(ws[2].0) == codes[2]) by {
        reveal_strlit("Metadata/BuildVersionHistory.plist");
    }
    assert(path_code(ws[3].0) == codes[3]) by {
        reveal_strlit("Index/Document.iwa");
    }
    assert(path_code(ws[4].0) == codes[4]) by {
        reveal_strlit("Index/DocumentMetadata.iwa");
    }
    assert(path_code(ws[5].0) == codes[5]) by {
        reveal_strlit("Index/Metadata.iwa");
    }
    assert(path_code(ws[6].0) == codes[6]) by {
        reveal_strlit("Index/ObjectContainer.iwa");
    }
    assert(path_code(ws[7].0) == codes[7]) by {
        reveal_strlit("Index/CalculationEngine.iwa");
    }
    assert(path_code(ws[8].0) == codes[8]) by {
        reveal_strlit("Index/ViewState.iwa");
    }
    assert(path_code(ws[9].0) == codes[9]) by {
        reveal_strlit("Index/AnnotationAuthorStorage.iwa");
    }
    assert(path_code(ws[10].0) == codes[10]) by {
        reveal_strlit("Index/DocumentStylesheet.iwa");
    }
    assert(path_code(ws[11].0) == codes[11]) by {
        reveal_strlit("Index/Tables/DataList-1-1.iwa");
    }
    assert(path_code(ws[12].0) == codes[12]) by {
        reveal_strlit("Index/Tables/Tile-1-1.iwa");
    }
}

proof fn lemma_codes_distinct(ws: Seq<(Seq<char>, Seq<u8>)>)
    requires
        ws.len() == 13,
        forall|i: int| 0 <= i < 13 ==> path_code(#[trigger] ws[i].0) == member_codes()[i],
    ensures
        forall|i: int, j: int| 0 <= j < i < 13 ==> (#[trigger] ws[j]).0 != (#[trigger] ws[i]).0,
        forall|i: int| 0 <= i < 11 ==> !has_prefix(#[trigger] ws[i].0, table_prefix()),
{
    let codes = member_codes();
    assert forall|i: int, j: int| 0 <= j < i < 13 implies (#[trigger] ws[j]).0 != (#[trigger] ws[i]).0 by {
        assert(path_code(ws[j].0) == codes[j]);
        assert(path_code(ws[i].0) == codes[i]);
        assert(codes[j] != codes[i]);
    }
    reveal_strlit("Index/Tables/");
    assert forall|i: int| 0 <= i < 11 implies !has_prefix(#[trigger] ws[i].0, table_prefix()) by {
        assert(path_code(ws[i].0) == codes[i]);
        if has_prefix(ws[i].0, table_prefix()) {
            assert(ws[i].0.subrange(0, 13)[6] == ws[i].0[6]);
        }
    }
}

proof fn lemma_table_prefixes()
    ensures
        has_prefix(datalist_path(1), table_prefix()),
        has_prefix(tile_path(1), table_prefix()),
{
    lemma_table_paths();
    reveal_strlit("Index/Tables/");
    reveal_strlit("Index/Tables/DataList-1-1.iwa");
    reveal_strlit("Index/Tables/Tile-1-1.iwa");
    assert(datalist_path(1).subrange(0, 13) =~= table_prefix());
    assert(tile_path(1).subrange(0, 13) =~= table_prefix());
}

proof fn lemma_paths_distinct(ws: Seq<(Seq<char>, Seq<u8>)>, d: Seq<u8>, tt: Seq<u8>)
    requires
        ws == numbers_base_members() + seq![(datalist_path(1), d), (tile_path(1), tt)],
    ensures
        ws.len() == 13,
        forall|i: int, j: int| 0 <= j < i < 13 ==> (#[trigger] ws[j]).0 != (#[trigger] ws[i]).0,
        forall|i: int| 0 <= i < 11 ==> !has_prefix(#[trigger] ws[i].0, table_prefix()),
        has_prefix(ws[11].0, table_prefix()),
        has_prefix(ws[12].0, table_prefix()),
{
    lemma_member_codes(ws, d, tt);
    lemma_codes_distinct(ws);
    lemma_table_prefixes();
    assert(ws[11].0 == datalist_path(1));
    assert(ws[12].0 == tile_path(1));
}

proof fn lemma_path_infixes()
    ensures
        has_infix(datalist_path(1), "DataList"@),
        !has_infix(tile_path(1), "DataList"@),
        has_infix(tile_path(1), "Tile"@),
        !has_infix(datalist_path(1), "Tile"@),
        !chars_less_from(tile_path(1), datalist_path(1), 0),
{
    lemma_table_paths();
    let dp = datalist_path(1);
    let tp = tile_path(1);
    reveal_strlit("Index/Tables/DataList-1-1.iwa");
    reveal_strlit("Index/Tables/Tile-1-1.iwa");
    reveal_strlit("DataList");
    reveal_strlit("Tile");
    assert(dp.subrange(13, 21) =~= "DataList"@);
    assert(tp.subrange(13, 17) =~= "Tile"@);
    assert(dp.subrange(13int, 13int + "DataList"@.len()) == "DataList"@);
    assert(tp.subrange(13int, 13int + "Tile"@.len()) == "Tile"@);
    if has_infix(tp, "DataList"@) {
        let i = choose|i: int| 0 <= i && i + 8 <= tp.len() && #[trigger] tp.subrange(i, i + 8) == "DataList"@;
        assert(tp.subrange(i, i + 8)[0] == tp[i]);
        assert(tp[i] == 'D');
        assert(false);
    }
    if has_infix(dp, "Tile"@) {
        let i = choose|i: int| 0 <= i && i + 4 <= dp.len() && #[trigger] dp.subrange(i, i + 4) == "Tile"@;
        assert(dp.subrange(i, i + 4)[0] == dp[i]);
        assert(dp.subrange(i, i + 4)[1] == dp[i + 1]);
        assert(dp[i] == 'T' && dp[i + 1] == 'i');
        assert(false);
    }
    lemma_less_common(tp, dp, 0, 13);
}

proof fn lemma_paths_order()
    ensures
        !chars_less_from(tile_path(1), datalist_path(1), 0),
{
    lemma_table_paths();
    reveal_strlit("Index/Tables/DataList-1-1.iwa");
    reveal_strlit("Index/Tables/Tile-1-1.iwa");
    lemma_less_common(tile_path(1), datalist_path(1), 0, 13);
}

proof fn lemma_skip_entries(pv: PackageView, es: Seq<EntryView>, k: int)
    requires
        0 <= k <= es.len(),
        forall|i: int| 0 <= i < k ==> !has_prefix(#[trigger] es[i].path, table_prefix()),
    ensures
        spec_table_archives_from(pv, es) == spec_table_archives_from(pv, es.subrange(k, es.len() as int)),
    decreases k,
{
    if k > 0 {
        let rest = es.drop_first();
        assert forall|i: int| 0 <= i < k - 1 implies !has_prefix(#[trigger] rest[i].path, table_prefix()) by {
            assert(rest[i] == es[i + 1]);
        }
        lemma_skip_entries(pv, rest, k - 1);
        assert(rest.subrange(k - 1, rest.len() as int) =~= es.subrange(k, es.len() as int));
    } else {
        assert(es.subrange(0, es.len() as int) =~= es);
    }
}

proof fn lemma_single_objects_decode()
    ensures
        forall|root: u64, kind: u64, body: Seq<u8>, refs: Seq<IwaObjectReference>|
            #[trigger] single_object_archive(root, kind, body, refs).len() <= usize::MAX ==> (spec_decode_archive(
                single_object_archive(root, kind, body, refs),
            ) matches Ok(a) && a.body == body && body.len() <= single_object_archive(root, kind, body, refs).len()),
{
    assert forall|root: u64, kind: u64, body: Seq<u8>, refs: Seq<IwaObjectReference>|
        #[trigger] single_object_archive(root, kind, body, refs).len() <= usize::MAX implies (spec_decode_archive(
            single_object_archive(root, kind, body, refs),
        ) matches Ok(a) && a.body == body && body.len() <= single_object_archive(root, kind, body, refs).len()) by {
        lemma_single_object_body(root, kind, body, refs);
    }
}

/// The table archives a written one-table workbook is read with: its string
/// list, then its tile.
pub open spec fn written_table_archives(t: WritableTableView) -> Seq<(Seq<char>, ArchiveView)> {
    let a = spec_table_archive(0, t)->Ok_0;
    seq![
        (datalist_path(1), spec_decode_archive(a.datalist)->Ok_0),
        (tile_path(1), spec_decode_archive(a.tile)->Ok_0),
    ]
}

proof fn lemma_sort_two(ts: Seq<(Seq<char>, ArchiveView)>)
    requires
        ts.len() == 2,
        !chars_less_from(ts[1].0, ts[0].0, 0),
    ensures
        sort_archives(ts) == ts,
{
    let x = ts[0];
    let y = ts[1];
    assert(ts.drop_last() =~= seq![x]);
    assert(seq![x].drop_last() =~= Seq::<(Seq<char>, ArchiveView)>::empty());
    assert(sort_archives(seq![x].drop_last()) == Seq::<(Seq<char>, ArchiveView)>::empty());
    assert(sort_archives(seq![x]) == insert_by_archive_path(Seq::<(Seq<char>, ArchiveView)>::empty(), x, 0));
    assert(Seq::<(Seq<char>, ArchiveView)>::empty().push(x) =~= seq![x]);
    assert(sort_archives(seq![x]) == seq![x]);
    assert(insert_by_archive_path(seq![x], y, 0) == insert_by_archive_path(seq![x], y, 1));
    assert(seq![x].push(y) =~= ts);
}

/// The written members read back from the written package as archives.
proof fn lemma_members_read(ws: Seq<(Seq<char>, Seq<u8>)>)
    requires
        ws.len() == 13,
        forall|i: int, j: int| 0 <= j < i < 13 ==> (#[trigger] ws[j]).0 != (#[trigger] ws[i]).0,
        zip_fits(member_bytes(ws)),
        spec_zip(member_bytes(ws)).len() <= usize::MAX,
        end_record_unambiguous(spec_zip(member_bytes(ws))),
    ensures
        spec_package_entries(spec_zip(member_bytes(ws))) == Ok::<Seq<EntryView>, crate::error::Error>(
            written_package(ws).entries,
        ),
        written_package(ws).entries.len() == 13,
        forall|i: int| 0 <= i < 13 ==> (#[trigger] written_package(ws).entries[i]).path == ws[i].0,
        forall|i: int|
            0 <= i < 13 ==> spec_read_archive(written_package(ws), #[trigger] ws[i].0) == match spec_decode_archive(
                ws[i].1,
            ) {
                Ok(x) => Ok(x),
                Err(e) => Err(crate::package::LoadError::Failed(e)),
            } && ws[i].1.len() <= usize::MAX,
{
    lemma_package_writer_round_trip(ws);
    let pv = written_package(ws);
    assert forall|i: int| 0 <= i < 13 implies spec_read_archive(pv, #[trigger] ws[i].0) == match spec_decode_archive(
        ws[i].1,
    ) {
        Ok(x) => Ok(x),
        Err(e) => Err(crate::package::LoadError::Failed(e)),
    } && ws[i].1.len() <= usize::MAX by {
        assert forall|j: int| 0 <= j < i implies (#[trigger] ws[j]).0 != ws[i].0 by {}
        lemma_member_read(ws, i);
    }
    assert forall|i: int| 0 <= i < 13 implies (#[trigger] pv.entries[i]).path == ws[i].0 by {}
}

/// The core members of a written workbook are one-object archives.
#[verifier::spinoff_prover]
#[verifier::rlimit(60)]
proof fn lemma_core_members_decode(ws: Seq<(Seq<char>, Seq<u8>)>, d: Seq<u8>, tt: Seq<u8>)
    requires
        ws == numbers_base_members() + seq![(datalist_path(1), d), (tile_path(1), tt)],
        forall|i: int| 0 <= i < 13 ==> (#[trigger] ws[i]).1.len() <= usize::MAX,
    ensures
        ws[3].0 == "Index/Document.iwa"@ && spec_decode_archive(ws[3].1) is Ok,
        ws[4].0 == "Index/DocumentMetadata.iwa"@ && spec_decode_archive(ws[4].1) is Ok,
        ws[5].0 == "Index/Metadata.iwa"@ && spec_decode_archive(ws[5].1) is Ok,
        ws[7].0 == "Index/CalculationEngine.iwa"@ && spec_decode_archive(ws[7].1) is Ok,
        ws[10].0 == "Index/DocumentStylesheet.iwa"@ && spec_decode_archive(ws[10].1) is Ok,
        ws[11] == (datalist_path(1), d),
        ws[12] == (tile_path(1), tt),
{
    lemma_single_objects_decode();
    assert(ws[3].1.len() <= usize::MAX);
    assert(ws[4].1.len() <= usize::MAX);
    assert(ws[5].1.len() <= usize::MAX);
    assert(ws[7].1.len() <= usize::MAX);
    assert(ws[10].1.len() <= usize::MAX);
}

proof fn lemma_tables_read(pv: PackageView, ws: Seq<(Seq<char>, Seq<u8>)>, ad: ArchiveView, at: ArchiveView)
    requires
        ws.len() == 13,
        pv.entries.len() == 13,
        forall|i: int| 0 <= i < 13 ==> (#[trigger] pv.entries[i]).path == ws[i].0,
        forall|i: int| 0 <= i < 11 ==> !has_prefix(#[trigger] ws[i].0, table_prefix()),
        has_prefix(ws[11].0, table_prefix()),
        has_prefix(ws[12].0, table_prefix()),
        spec_read_archive(pv, ws[11].0) == Ok::<ArchiveView, crate::package::LoadError>(ad),
        spec_read_archive(pv, ws[12].0) == Ok::<ArchiveView, crate::package::LoadError>(at),
    ensures
        spec_table_archives_from(pv, pv.entries) == Ok::<Seq<(Seq<char>, ArchiveView)>, crate::package::LoadError>(
            seq![(ws[11].0, ad), (ws[12].0, at)],
        ),
{
    let es = pv.entries;
    assert forall|i: int| 0 <= i < 11 implies !has_prefix(#[trigger] es[i].path, table_prefix()) by {
        assert(es[i].path == ws[i].0);
    }
    lemma_skip_entries(pv, es, 11);
    let tail = es.subrange(11, 13);
    assert(tail[0] == es[11]);
    assert(tail[1] == es[12]);
    assert(tail.drop_first()[0] == es[12]);
    assert(tail.drop_first().drop_first() =~= Seq::<EntryView>::empty());
    assert(spec_table_archives_from(pv, tail.drop_first().drop_first()) == Ok::<Seq<(Seq<char>, ArchiveView)>, crate::package::LoadError>(
        seq![],
    ));
    assert(tail.drop_first()[0].path == ws[12].0);
    assert(tail[0].path == ws[11].0);
    assert(spec_table_archives_from(pv, tail.drop_first()) == Ok::<Seq<(Seq<char>, ArchiveView)>, crate::package::LoadError>(
        seq![(ws[12].0, at)] + seq![],
    ));
    assert(spec_table_archives_from(pv, tail) == Ok::<Seq<(Seq<char>, ArchiveView)>, crate::package::LoadError>(
        seq![(ws[11].0, ad)] + (seq![(ws[12].0, at)] + seq![]),
    ));
    assert(seq![(ws[11].0, ad)] + (seq![(ws[12].0, at)] + seq![]) =~= seq![(ws[11].0, ad), (ws[12].0, at)]);
}

proof fn lemma_spreadsheet_of(pv: PackageView, ws: Seq<(Seq<char>, Seq<u8>)>, ts: Seq<(Seq<char>, ArchiveView)>)
    requires
        ws.len() == 13,
        ws[3].0 == "Index/Document.iwa"@ && spec_read_archive(pv, ws[3].0) is Ok,
        ws[4].0 == "Index/DocumentMetadata.iwa"@ && spec_read_archive(pv, ws[4].0) is Ok,
        ws[5].0 == "Index/Metadata.iwa"@ && spec_read_archive(pv, ws[5].0) is Ok,
        ws[7].0 == "Index/CalculationEngine.iwa"@ && spec_read_archive(pv, ws[7].0) is Ok,
        ws[10].0 == "Index/DocumentStylesheet.iwa"@ && spec_read_archive(pv, ws[10].0) is Ok,
        spec_table_archives_from(pv, pv.entries) == Ok::<Seq<(Seq<char>, ArchiveView)>, crate::package::LoadError>(ts),
        ts.len() == 2,
        !chars_less_from(ts[1].0, ts[0].0, 0),
    ensures
        spec_spreadsheet(pv) matches Ok(s) && s.table_archives == ts,
{
    lemma_sort_two(ts);
}

/// The string list and tile archives of a written table decode to their bodies.
pub proof fn lemma_table_archive_decodes(t: WritableTableView)
    requires
        spec_table_archive(0, t) is Ok,
        spec_table_archive(0, t)->Ok_0.datalist.len() <= usize::MAX,
        spec_table_archive(0, t)->Ok_0.tile.len() <= usize::MAX,
    ensures
        spec_decode_archive(spec_table_archive(0, t)->Ok_0.datalist) matches Ok(x) && x.body == datalist_body(
            table_strings(t.rows),
        ),
        spec_decode_archive(spec_table_archive(0, t)->Ok_0.tile) matches Ok(x) && x.body == tile_body(
            t.rows,
            table_strings(t.rows),
        )->Ok_0,
        datalist_body(table_strings(t.rows)).len() <= usize::MAX,
        tile_body(t.rows, table_strings(t.rows))->Ok_0.len() <= usize::MAX,
{
    let strings = table_strings(t.rows);
    let tb = tile_body(t.rows, strings)->Ok_0;
    lemma_single_object_body(1, 6005, datalist_body(strings), seq![]);
    lemma_single_object_body(1, 6002, tb, seq![]);
}

proof fn lemma_reads_ok(ws: Seq<(Seq<char>, Seq<u8>)>, d: Seq<u8>, tt: Seq<u8>, ad: ArchiveView, at: ArchiveView)
    requires
        ws.len() == 13,
        forall|i: int|
            0 <= i < 13 ==> spec_read_archive(written_package(ws), #[trigger] ws[i].0) == match spec_decode_archive(
                ws[i].1,
            ) {
                Ok(x) => Ok(x),
                Err(e) => Err(crate::package::LoadError::Failed(e)),
            } && ws[i].1.len() <= usize::MAX,
        spec_decode_archive(ws[3].1) is Ok,
        spec_decode_archive(ws[4].1) is Ok,
        spec_decode_archive(ws[5].1) is Ok,
        spec_decode_archive(ws[7].1) is Ok,
        spec_decode_archive(ws[10].1) is Ok,
        ws[11] == (datalist_path(1), d),
        ws[12] == (tile_path(1), tt),
        spec_decode_archive(d) == Ok::<ArchiveView, crate::error::Error>(ad),
        spec_decode_archive(tt) == Ok::<ArchiveView, crate::error::Error>(at),
    ensures
        spec_read_archive(written_package(ws), ws[3].0) is Ok,
        spec_read_archive(written_package(ws), ws[4].0) is Ok,
        spec_read_archive(written_package(ws), ws[5].0) is Ok,
        spec_read_archive(written_package(ws), ws[7].0) is Ok,
        spec_read_archive(written_package(ws), ws[10].0) is Ok,
        spec_read_archive(written_package(ws), ws[11].0) == Ok::<ArchiveView, crate::package::LoadError>(ad),
        spec_read_archive(written_package(ws), ws[12].0) == Ok::<ArchiveView, crate::package::LoadError>(at),
{
    let pv = written_package(ws);
    assert(spec_read_archive(pv, ws[3].0) is Ok);
    assert(spec_read_archive(pv, ws[4].0) is Ok);
    assert(spec_read_archive(pv, ws[5].0) is Ok);
    assert(spec_read_archive(pv, ws[7].0) is Ok);
    assert(spec_read_archive(pv, ws[10].0) is Ok);
    assert(spec_read_archive(pv, ws[11].0) == Ok::<ArchiveView, crate::package::LoadError>(ad));
    assert(spec_read_archive(pv, ws[12].0) == Ok::<ArchiveView, crate::package::LoadError>(at));
}

#[verifier::spinoff_prover]
#[verifier::rlimit(60)]
proof fn lemma_written_package(pv: PackageView, ws: Seq<(Seq<char>, Seq<u8>)>, ad: ArchiveView, at: ArchiveView)
    requires
        ws.len() == 13,
        forall|i: int| 0 <= i < 11 ==> !has_prefix(#[trigger] ws[i].0, table_prefix()),
        has_prefix(ws[11].0, table_prefix()),
        has_prefix(ws[12].0, table_prefix()),
        pv.entries.len() == 13,
        forall|i: int| 0 <= i < 13 ==> (#[trigger] pv.entries[i]).path == ws[i].0,
        ws[3].0 == "Index/Document.iwa"@ && spec_read_archive(pv, ws[3].0) is Ok,
        ws[4].0 == "Index/DocumentMetadata.iwa"@ && spec_read_archive(pv, ws[4].0) is Ok,
        ws[5].0 == "Index/Metadata.iwa"@ && spec_read_archive(pv, ws[5].0) is Ok,
        ws[7].0 == "Index/CalculationEngine.iwa"@ && spec_read_archive(pv, ws[7].0) is Ok,
        ws[10].0 == "Index/DocumentStylesheet.iwa"@ && spec_read_archive(pv, ws[10].0) is Ok,
        ws[11].0 == datalist_path(1),
        ws[12].0 == tile_path(1),
        spec_read_archive(pv, ws[11].0) == Ok::<ArchiveView, crate::package::LoadError>(ad),
        spec_read_archive(pv, ws[12].0) == Ok::<ArchiveView, crate::package::LoadError>(at),
    ensures
        spec_spreadsheet(pv) matches Ok(s) && s.table_archives == seq![(datalist_path(1), ad), (tile_path(1), at)],
{
    lemma_tables_read(pv, ws, ad, at);
    lemma_paths_order();
    lemma_spreadsheet_of(pv, ws, seq![(ws[11].0, ad), (ws[12].0, at)]);
}

#[verifier::spinoff_prover]
#[verifier::rlimit(60)]
proof fn lemma_written_spreadsheet(t: WritableTableView)
    requires
        numbers_members(seq![t]) is Ok,
        zip_fits(member_bytes(numbers_members(seq![t])->Ok_0)),
        spec_zip(member_bytes(numbers_members(seq![t])->Ok_0)).len() <= usize::MAX,
        end_record_unambiguous(spec_zip(member_bytes(numbers_members(seq![t])->Ok_0))),
    ensures
        ({
            let ws = numbers_members(seq![t])->Ok_0;
            let pv = written_package(ws);
            &&& spec_package_entries(spec_zip(member_bytes(ws))) == Ok::<Seq<EntryView>, crate::error::Error>(
                pv.entries,
            )
            &&& spec_spreadsheet(pv) matches Ok(s) && s.table_archives == written_table_archives(t)
            &&& spec_decode_archive(spec_table_archive(0, t)->Ok_0.datalist) matches Ok(x) && x.body == datalist_body(
                table_strings(t.rows),
            )
            &&& spec_decode_archive(spec_table_archive(0, t)->Ok_0.tile) matches Ok(x) && x.body == tile_body(
                t.rows,
                table_strings(t.rows),
            )->Ok_0
            &&& datalist_body(table_strings(t.rows)).len() <= usize::MAX
            &&& tile_body(t.rows, table_strings(t.rows))->Ok_0.len() <= usize::MAX
        }),
{
    lemma_one_table_members(t);
    let a = spec_table_archive(0, t)->Ok_0;
    let ws = numbers_members(seq![t])->Ok_0;
    lemma_paths_distinct(ws, a.datalist, a.tile);
    lemma_members_read(ws);
    lemma_core_members_decode(ws, a.datalist, a.tile);
    assert(ws[11].1.len() <= usize::MAX);
    assert(ws[12].1.len() <= usize::MAX);
    lemma_table_archive_decodes(t);
    let ad = spec_decode_archive(a.datalist)->Ok_0;
    let at = spec_decode_archive(a.tile)->Ok_0;
    lemma_reads_ok(ws, a.datalist, a.tile, ad, at);
    lemma_written_package(written_package(ws), ws, ad, at);
}

proof fn lemma_two_tables_read(ad: ArchiveView, at: ArchiveView)
    ensures
        ({
            let ts = seq![(datalist_path(1), ad), (tile_path(1), at)];
            &&& merged_strings(ts) == spec_string_datalist(ad.body)
            &&& tile_tables(ts, merged_strings(ts)) == seq![
                spec_raw_rows(at.body).map_values(|r: RawRowView| resolved_row(r, spec_string_datalist(ad.body), 0)),
            ]
        }),
{
    lemma_path_infixes();
    let ts = seq![(datalist_path(1), ad), (tile_path(1), at)];
    let one = ts.drop_last();
    assert(one =~= seq![(datalist_path(1), ad)]);
    assert(one.drop_last() =~= Seq::<(Seq<char>, ArchiveView)>::empty());
    assert(merged_strings(one.drop_last()) == Map::<u32, Seq<char>>::empty());
    assert(merged_strings(one) == datalist_scan(ad.body, leading_len(ad.body, 0), Map::<u32, Seq<char>>::empty()));
    assert(merged_strings(ts) == merged_strings(one));
    let m = merged_strings(ts);
    assert(tile_tables(one.drop_last(), m) == Seq::<Seq<ResolvedRowView>>::empty());
    assert(tile_tables(one, m) == Seq::<Seq<ResolvedRowView>>::empty());
    assert(tile_tables(ts, m) =~= seq![spec_raw_rows(at.body).map_values(|r: RawRowView| resolved_row(r, m, 0))]);
}

proof fn lemma_rows_texts_resolve(rows: Seq<Seq<WritableCellView>>)
    requires
        table_strings(rows).len() < u32::MAX,
        datalist_body(table_strings(rows)).len() <= usize::MAX,
    ensures
        forall|i: int|
            0 <= i < rows.len() ==> texts_resolve(
                #[trigger] rows[i],
                table_strings(rows),
                spec_string_datalist(datalist_body(table_strings(rows))),
            ),
{
    let strings = table_strings(rows);
    let m = spec_string_datalist(datalist_body(strings));
    lemma_datalist_reads(strings);
    assert forall|i: int| 0 <= i < rows.len() implies texts_resolve(#[trigger] rows[i], strings, m) by {
        let row = rows[i];
        assert forall|c: int| 0 <= c < row.len() implies (#[trigger] row[c] matches WritableCellView::Text(u) ==> text_key(
            strings,
            u,
        ) matches Some(k) && m.contains_key(k) && m[k] == u) by {
            if let WritableCellView::Text(u) = row[c] {
                crate::numbers::write::lemma_text_cells_keyed(rows, i, c);
                let k = text_key(strings, u)->Some_0;
                assert(strings[k - 1] == u);
                assert(strings.contains(u));
            }
        }
    }
}

proof fn lemma_sheet_tiles(s: crate::numbers::spreadsheet::SpreadsheetView, ad: ArchiveView, at: ArchiveView, t: WritableTableView)
    requires
        s.table_archives == seq![(datalist_path(1), ad), (tile_path(1), at)],
        ad.body == datalist_body(table_strings(t.rows)),
        at.body == tile_body(t.rows, table_strings(t.rows))->Ok_0,
        tile_body(t.rows, table_strings(t.rows)) is Ok,
        table_strings(t.rows).len() < u32::MAX,
        max_row_len(t.rows) <= 255,
        datalist_body(table_strings(t.rows)).len() <= usize::MAX,
        tile_body(t.rows, table_strings(t.rows))->Ok_0.len() <= usize::MAX,
        forall|i: int|
            0 <= i < t.rows.len() ==> offsets_readable(#[trigger] t.rows[i], max_row_len(t.rows), table_strings(t.rows)),
    ensures
        spec_tile_tables(s) == seq![read_rows(t.rows)],
{
    lemma_two_tables_read(ad, at);
    lemma_rows_texts_resolve(t.rows);
    lemma_tile_reads(t.rows, table_strings(t.rows), spec_string_datalist(datalist_body(table_strings(t.rows))));
}

/// Law: the bytes [`Workbook::to_numbers_bytes`](crate::numbers::write::Workbook)
/// writes for a workbook of one table read back (through
/// `Document::from_bytes`, `Document::spreadsheet` and
/// `Spreadsheet::tile_tables`) as that one table: row by row, each row at its
/// own index, with its cells up to its last non-empty one, and each cell as
/// written (a text as its text, a number, date or duration as the same bits,
/// a checkbox as its value). It holds whenever the package forms a plain ZIP
/// archive that fits in memory and whose end record holds no second
/// end-record signature, every row fits the tile's offset slots, and no cell
/// record of a row starts at the offset that marks an empty slot.
#[verifier::spinoff_prover]
#[verifier::rlimit(60)]
pub proof fn lemma_workbook_round_trip(t: WritableTableView)
    requires
        table_strings(t.rows).len() < u32::MAX,
        max_row_len(t.rows) <= 255,
        numbers_members(seq![t]) is Ok,
        zip_fits(member_bytes(numbers_members(seq![t])->Ok_0)),
        spec_zip(member_bytes(numbers_members(seq![t])->Ok_0)).len() <= usize::MAX,
        end_record_unambiguous(spec_zip(member_bytes(numbers_members(seq![t])->Ok_0))),
        forall|i: int|
            0 <= i < t.rows.len() ==> offsets_readable(#[trigger] t.rows[i], max_row_len(t.rows), table_strings(t.rows)),
    ensures
        ({
            let z = spec_zip(member_bytes(numbers_members(seq![t])->Ok_0));
            spec_package_entries(z) matches Ok(es) && spec_spreadsheet(PackageView { bytes: z, entries: es }) matches Ok(
                s,
            ) && spec_tile_tables(s) == seq![read_rows(t.rows)]
        }),
{
    lemma_written_spreadsheet(t);
    lemma_one_table_members(t);
    let ws = numbers_members(seq![t])->Ok_0;
    let pv = written_package(ws);
    let s = spec_spreadsheet(pv)->Ok_0;
    let a = spec_table_archive(0, t)->Ok_0;
    let ad = spec_decode_archive(a.datalist)->Ok_0;
    let at = spec_decode_archive(a.tile)->Ok_0;
    lemma_sheet_tiles(s, ad, at, t);
}

} // verus!
