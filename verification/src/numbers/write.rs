//! Writing Numbers workbooks: tables of cells laid out as tiles and string
//! lists, packaged with the archives a `.numbers` document carries.
use crate::encode::{
    annotation_archive, bfield, build_version_history_plist, build_version_history_text, document_identifier,
    document_identifier_text, document_metadata_archive, encode_infra_archives, encode_single_object,
    metadata_archive, object_container_archive, object_reference, objref, one_ref, properties_plist,
    properties_plist_text, single_object_archive, stylesheet_archive, vfield, InfraArchives, InfraIds,
};
use crate::error::Error;
use crate::iwa::IwaObjectReference;
use crate::keynote::write::{decimal, decimal_chars};
use crate::package::{member_bytes, spec_zip, zip_fits, PackageWriter};
use crate::protobuf::{
    copy_bytes, le_bytes_u32, le_bytes_u64, spec_encode_fields, ProtoField, ProtoFieldView, ProtoMessage,
};
use crate::style_catalog::{insert_text, insert_text_vec, text_eq};
use crate::text::{chars_of, string_from_chars};
use vstd::prelude::*;
use vstd::utf8::encode_utf8;

verus! {

// ───────────────────────────── cells and tables ─────────────────────────────

/// A cell to write. Numbers, dates and durations carry the bit pattern of
/// the IEEE-754 double that the cell stores.
#[derive(Debug, Clone)]
pub enum WritableCell {
    Empty,
    Bool(bool),
    Number(u64),
    /// Seconds since the Cocoa epoch, as double bits.
    Date(u64),
    /// Seconds, as double bits.
    Duration(u64),
    Error,
    Text(String),
}

/// What a [`WritableCell`] holds.
pub enum WritableCellView {
    Empty,
    Bool(bool),
    Number(u64),
    Date(u64),
    Duration(u64),
    Error,
    Text(Seq<char>),
}

impl View for WritableCell {
    type V = WritableCellView;

    open spec fn view(&self) -> WritableCellView {
        match self {
            WritableCell::Empty => WritableCellView::Empty,
            WritableCell::Bool(b) => WritableCellView::Bool(*b),
            WritableCell::Number(x) => WritableCellView::Number(*x),
            WritableCell::Date(x) => WritableCellView::Date(*x),
            WritableCell::Duration(x) => WritableCellView::Duration(*x),
            WritableCell::Error => WritableCellView::Error,
            WritableCell::Text(s) => WritableCellView::Text(s@),
        }
    }
}

/// The cells of a row, by their views.
pub open spec fn row_view(row: Seq<WritableCell>) -> Seq<WritableCellView> {
    row.map_values(|c: WritableCell| c@)
}

/// The rows of a table, by their views.
pub open spec fn rows_view(rows: Seq<Vec<WritableCell>>) -> Seq<Seq<WritableCellView>> {
    rows.map_values(|r: Vec<WritableCell>| row_view(r@))
}

// ───────────────────────────── the string list ─────────────────────────────

/// The cells of all rows, row after row.
pub open spec fn flat_cells(rows: Seq<Seq<WritableCellView>>) -> Seq<WritableCellView>
    decreases rows.len(),
{
    if rows.len() == 0 {
        seq![]
    } else {
        flat_cells(rows.drop_last()) + rows.last()
    }
}

/// The distinct texts of `cells`, in order of first appearance.
pub open spec fn first_texts(cells: Seq<WritableCellView>) -> Seq<Seq<char>>
    decreases cells.len(),
{
    if cells.len() == 0 {
        seq![]
    } else {
        let prev = first_texts(cells.drop_last());
        match cells.last() {
            WritableCellView::Text(t) => if prev.contains(t) {
                prev
            } else {
                prev.push(t)
            },
            _ => prev,
        }
    }
}

/// The strings of a table; the string at index `i` has key `i + 1`.
pub open spec fn table_strings(rows: Seq<Seq<WritableCellView>>) -> Seq<Seq<char>> {
    first_texts(flat_cells(rows))
}

/// The first index of `t` in `xs` from `j` on, or `xs.len()` when it is absent.
pub open spec fn position_from(xs: Seq<Seq<char>>, t: Seq<char>, j: int) -> int
    decreases xs.len() - j,
{
    if j < 0 || j >= xs.len() {
        xs.len() as int
    } else if xs[j] == t {
        j
    } else {
        position_from(xs, t, j + 1)
    }
}

/// The key of text `t` in the string list, if it is there.
pub open spec fn text_key(strings: Seq<Seq<char>>, t: Seq<char>) -> Option<u32> {
    let p = position_from(strings, t, 0);
    if p < strings.len() {
        Some((p + 1) as u32)
    } else {
        None
    }
}

// ───────────────────────────── cell records ─────────────────────────────

/// The bits of the double `1.0`.
pub open spec fn one_bits() -> u64 {
    0x3FF0_0000_0000_0000
}

/// The two little-endian bytes of `v`.
pub open spec fn le_bytes_u16(v: u16) -> Seq<u8> {
    seq![v as u8, (v >> 8u16) as u8]
}

/// The first twelve bytes of a cell record: version, cell type, padding and
/// the flags that say which values follow.
pub open spec fn record_head(cell_type: u8, flags: u32) -> Seq<u8> {
    seq![5u8, cell_type, 0u8, 0u8, 0u8, 0u8, 0u8, 0u8] + le_bytes_u32(flags)
}

/// The storage record of a cell; `None` when a text has no key.
pub open spec fn cell_record(c: WritableCellView, strings: Seq<Seq<char>>) -> Option<Seq<u8>> {
    match c {
        WritableCellView::Empty => Some(seq![]),
        WritableCellView::Number(b) => Some(record_head(2, 2) + le_bytes_u64(b)),
        WritableCellView::Bool(v) => Some(record_head(6, 2) + le_bytes_u64(if v { one_bits() } else { 0 })),
        WritableCellView::Date(b) => Some(record_head(5, 4) + le_bytes_u64(b)),
        WritableCellView::Duration(b) => Some(record_head(7, 2) + le_bytes_u64(b)),
        WritableCellView::Error => Some(record_head(8, 0)),
        WritableCellView::Text(t) => match text_key(strings, t) {
            Some(k) => Some(record_head(3, 8) + le_bytes_u32(k)),
            None => None,
        },
    }
}

/// The kind byte of a cell's column record.
pub open spec fn cell_kind(c: WritableCellView) -> u8 {
    match c {
        WritableCellView::Empty | WritableCellView::Error => 0,
        WritableCellView::Number(_) | WritableCellView::Bool(_) | WritableCellView::Duration(_) => 2,
        WritableCellView::Date(_) => 4,
        WritableCellView::Text(_) => 8,
    }
}

/// The twelve-byte column record: column, storage offset, kind.
pub open spec fn column_record(column: u16, offset: u16, kind: u8) -> Seq<u8> {
    le_bytes_u16(column) + le_bytes_u16(offset) + seq![kind, 0u8, 0u8, 0u8, 0u8, 0u8, 0u8, 0u8]
}

// ───────────────────────────── rows ─────────────────────────────

/// The number of offset slots of a row.
pub open spec fn offset_slots() -> nat {
    255
}

/// The cell in column `c`, empty past the row's end.
pub open spec fn cell_at(row: Seq<WritableCellView>, c: int) -> WritableCellView {
    if 0 <= c < row.len() {
        row[c]
    } else {
        WritableCellView::Empty
    }
}

/// Laying out the first `n` columns of a row: the cell storage, the offset
/// of each column's record in it (`0xffff` for none), and the column records.
pub open spec fn row_layout(row: Seq<WritableCellView>, n: nat, strings: Seq<Seq<char>>) -> Result<
    (Seq<u8>, Seq<u16>, Seq<u8>),
    Error,
>
    decreases n,
{
    if n == 0 {
        Ok((seq![], Seq::new(offset_slots(), |i: int| 0xffffu16), seq![]))
    } else {
        match row_layout(row, (n - 1) as nat, strings) {
            Err(e) => Err(e),
            Ok((st, offs, leg)) => {
                let c = n - 1;
                let cell = cell_at(row, c);
                if cell is Empty {
                    Ok((st, offs, leg + column_record(c as u16, 0xffff, 0)))
                } else if st.len() > 0xffff {
                    Err(Error::InvalidIwa("cell storage offset overflow"))
                } else {
                    match cell_record(cell, strings) {
                        None => Err(Error::InvalidIwa("missing string datalist key")),
                        Some(rec) => Ok(
                            (
                                st + rec,
                                offs.update(c, st.len() as u16),
                                leg + column_record(c as u16, st.len() as u16, cell_kind(cell)),
                            ),
                        ),
                    }
                }
            },
        }
    }
}

/// The little-endian bytes of the offsets.
pub open spec fn offset_bytes(offs: Seq<u16>) -> Seq<u8>
    decreases offs.len(),
{
    if offs.len() == 0 {
        seq![]
    } else {
        offset_bytes(offs.drop_last()) + le_bytes_u16(offs.last())
    }
}

/// The smaller of two numbers.
pub open spec fn min_nat(a: nat, b: nat) -> nat {
    if a < b {
        a
    } else {
        b
    }
}

/// The fields of the message of row `i`, laid out across `cc` columns (at
/// most the offset slots).
pub open spec fn row_fields(i: nat, row: Seq<WritableCellView>, cc: nat, strings: Seq<Seq<char>>) -> Result<
    Seq<ProtoFieldView>,
    Error,
> {
    match row_layout(row, min_nat(cc, offset_slots()), strings) {
        Err(e) => Err(e),
        Ok((st, offs, leg)) => Ok(
            seq![
                vfield(1, i as u64),
                vfield(2, cc as u64),
                bfield(3, leg),
                bfield(4, offset_bytes(offs)),
                vfield(5, 5),
                bfield(6, st),
                bfield(7, offset_bytes(offs)),
            ],
        ),
    }
}

proof fn lemma_layout_error_stays(row: Seq<WritableCellView>, c: nat, m: nat, strings: Seq<Seq<char>>)
    requires
        c <= m,
        row_layout(row, c, strings) is Err,
    ensures
        row_layout(row, m, strings) == row_layout(row, c, strings),
    decreases m - c,
{
    if m > c {
        lemma_layout_error_stays(row, c, (m - 1) as nat, strings);
    }
}

// ───────────────────────────── executable pieces ─────────────────────────────

fn strings_view(xs: &Vec<String>) -> (r: Ghost<Seq<Seq<char>>>)
    ensures
        r@ == xs@.map_values(|s: String| s@),
{
    Ghost(xs@.map_values(|s: String| s@))
}

/// The first index of `t` in `xs`, or `xs.len()`.
fn position_of(xs: &Vec<String>, t: &str) -> (r: usize)
    ensures
        r as int == position_from(xs@.map_values(|s: String| s@), t@, 0),
        r <= xs@.len(),
        (r < xs@.len()) == xs@.map_values(|s: String| s@).contains(t@),
{
    let ghost v = xs@.map_values(|s: String| s@);
    let mut j: usize = 0;
    while j < xs.len()
        invariant
            j <= xs@.len(),
            v == xs@.map_values(|s: String| s@),
            position_from(v, t@, 0) == position_from(v, t@, j as int),
            forall|k: int| 0 <= k < j ==> v[k] != t@,
        decreases xs.len() - j,
    {
        assert(v[j as int] == xs@[j as int]@);
        if text_eq(xs[j].as_str(), t) {
            return j;
        }
        j = j + 1;
    }
    assert(!v.contains(t@));
    j
}

/// The distinct texts of the rows, in order of first appearance.
fn collect_strings(rows: &Vec<Vec<WritableCell>>) -> (r: Vec<String>)
    ensures
        r@.map_values(|s: String| s@) == table_strings(rows_view(rows@)),
{
    let ghost rv = rows_view(rows@);
    let mut out: Vec<String> = Vec::new();
    let mut i: usize = 0;
    assert(flat_cells(rv.take(0)) =~= seq![]);
    assert(out@.map_values(|s: String| s@) =~= seq![]);
    while i < rows.len()
        invariant
            i <= rows@.len(),
            rv == rows_view(rows@),
            out@.map_values(|s: String| s@) == first_texts(flat_cells(rv.take(i as int))),
        decreases rows.len() - i,
    {
        let row = &rows[i];
        let ghost before = flat_cells(rv.take(i as int));
        let ghost cells = rv[i as int];
        assert(cells == row_view(row@));
        let mut j: usize = 0;
        assert(before + cells.take(0) =~= before);
        while j < row.len()
            invariant
                j <= row@.len(),
                cells == row_view(row@),
                out@.map_values(|s: String| s@) == first_texts(before + cells.take(j as int)),
            decreases row.len() - j,
        {
            let ghost prev = out@.map_values(|s: String| s@);
            assert((before + cells.take(j + 1)).drop_last() =~= before + cells.take(j as int));
            assert((before + cells.take(j + 1)).last() == cells[j as int]);
            match &row[j] {
                WritableCell::Text(t) => {
                    let p = position_of(&out, t.as_str());
                    if p == out.len() {
                        out.push(t.clone());
                        assert(out@.map_values(|s: String| s@) =~= prev.push(t@));
                    }
                },
                _ => {},
            }
            j = j + 1;
        }
        assert(cells.take(row@.len() as int) =~= cells);
        assert(rv.take(i + 1).drop_last() =~= rv.take(i as int));
        i = i + 1;
    }
    assert(rv.take(rows@.len() as int) =~= rv);
    out
}

fn push_u16(out: &mut Vec<u8>, v: u16)
    ensures
        final(out)@ == old(out)@ + le_bytes_u16(v),
{
    out.push(v as u8);
    out.push((v >> 8u16) as u8);
    assert(out@ =~= old(out)@ + le_bytes_u16(v));
}

fn push_u32(out: &mut Vec<u8>, v: u32)
    ensures
        final(out)@ == old(out)@ + le_bytes_u32(v),
{
    out.push(v as u8);
    out.push((v >> 8u32) as u8);
    out.push((v >> 16u32) as u8);
    out.push((v >> 24u32) as u8);
    assert(out@ =~= old(out)@ + le_bytes_u32(v));
}

fn push_u64(out: &mut Vec<u8>, v: u64)
    ensures
        final(out)@ == old(out)@ + le_bytes_u64(v),
{
    out.push(v as u8);
    out.push((v >> 8u64) as u8);
    out.push((v >> 16u64) as u8);
    out.push((v >> 24u64) as u8);
    out.push((v >> 32u64) as u8);
    out.push((v >> 40u64) as u8);
    out.push((v >> 48u64) as u8);
    out.push((v >> 56u64) as u8);
    assert(out@ =~= old(out)@ + le_bytes_u64(v));
}

fn head(cell_type: u8, flags: u32) -> (r: Vec<u8>)
    ensures
        r@ == record_head(cell_type, flags),
{
    let mut out = vec![5u8, cell_type, 0u8, 0u8, 0u8, 0u8, 0u8, 0u8];
    let ghost a = out@;
    push_u32(&mut out, flags);
    assert(a =~= seq![5u8, cell_type, 0u8, 0u8, 0u8, 0u8, 0u8, 0u8]);
    out
}

/// The storage record of a cell.
fn encode_cell_record(cell: &WritableCell, strings: &Vec<String>) -> (r: Result<Vec<u8>, Error>)
    requires
        strings@.len() < u32::MAX,
    ensures
        match cell_record(cell@, strings@.map_values(|s: String| s@)) {
            Some(b) => r matches Ok(v) && v@ == b,
            None => r == Err::<Vec<u8>, Error>(Error::InvalidIwa("missing string datalist key")),
        },
{
    match cell {
        WritableCell::Empty => {
            let v: Vec<u8> = Vec::new();
            assert(v@ =~= seq![]);
            Ok(v)
        },
        WritableCell::Number(b) => {
            let mut v = head(2, 2);
            push_u64(&mut v, *b);
            Ok(v)
        },
        WritableCell::Bool(x) => {
            let mut v = head(6, 2);
            push_u64(&mut v, if *x { 0x3FF0_0000_0000_0000u64 } else { 0u64 });
            Ok(v)
        },
        WritableCell::Date(b) => {
            let mut v = head(5, 4);
            push_u64(&mut v, *b);
            Ok(v)
        },
        WritableCell::Duration(b) => {
            let mut v = head(7, 2);
            push_u64(&mut v, *b);
            Ok(v)
        },
        WritableCell::Error => Ok(head(8, 0)),
        WritableCell::Text(t) => {
            let p = position_of(strings, t.as_str());
            if p < strings.len() {
                let mut v = head(3, 8);
                push_u32(&mut v, (p + 1) as u32);
                Ok(v)
            } else {
                Err(Error::InvalidIwa("missing string datalist key"))
            }
        },
    }
}

fn kind_of(cell: &WritableCell) -> (r: u8)
    ensures
        r == cell_kind(cell@),
{
    match cell {
        WritableCell::Empty | WritableCell::Error => 0,
        WritableCell::Number(_) | WritableCell::Bool(_) | WritableCell::Duration(_) => 2,
        WritableCell::Date(_) => 4,
        WritableCell::Text(_) => 8,
    }
}

fn push_column_record(out: &mut Vec<u8>, column: u16, offset: u16, kind: u8)
    ensures
        final(out)@ == old(out)@ + column_record(column, offset, kind),
{
    let ghost a = out@;
    push_u16(out, column);
    push_u16(out, offset);
    out.push(kind);
    let mut k: usize = 0;
    while k < 7
        invariant
            k <= 7,
            out@ == a + le_bytes_u16(column) + le_bytes_u16(offset) + seq![kind] + Seq::new(k as nat, |i: int| 0u8),
        decreases 7 - k,
    {
        out.push(0u8);
        k = k + 1;
        assert(out@ =~= a + le_bytes_u16(column) + le_bytes_u16(offset) + seq![kind] + Seq::new(k as nat, |i: int| 0u8));
    }
    assert(out@ =~= a + column_record(column, offset, kind));
}

fn offset_bytes_of(offs: &Vec<u16>) -> (r: Vec<u8>)
    ensures
        r@ == offset_bytes(offs@),
{
    let mut out: Vec<u8> = Vec::new();
    let mut k: usize = 0;
    assert(offs@.take(0) =~= seq![]);
    while k < offs.len()
        invariant
            k <= offs@.len(),
            out@ == offset_bytes(offs@.take(k as int)),
        decreases offs.len() - k,
    {
        assert(offs@.take(k + 1).drop_last() =~= offs@.take(k as int));
        push_u16(&mut out, offs[k]);
        k = k + 1;
    }
    assert(offs@.take(offs@.len() as int) =~= offs@);
    out
}

/// The fields of the message of row `index`.
fn encode_row_fields(index: usize, row: &Vec<WritableCell>, col_count: usize, strings: &Vec<String>) -> (r: Result<
    Vec<ProtoField>,
    Error,
>)
    requires
        strings@.len() < u32::MAX,
    ensures
        match row_fields(index as nat, row_view(row@), col_count as nat, strings@.map_values(|s: String| s@)) {
            Ok(fs) => r matches Ok(v) && v@.map_values(|f: ProtoField| f@) == fs,
            Err(e) => r == Err::<Vec<ProtoField>, Error>(e),
        },
{
    let ghost sv = strings@.map_values(|s: String| s@);
    let ghost rv = row_view(row@);
    let n: usize = if col_count < 255 { col_count } else { 255 };
    let mut offsets: Vec<u16> = Vec::new();
    let mut k: usize = 0;
    while k < 255
        invariant
            k <= 255,
            offsets@ == Seq::new(k as nat, |i: int| 0xffffu16),
        decreases 255 - k,
    {
        offsets.push(0xffffu16);
        k = k + 1;
        assert(offsets@ =~= Seq::new(k as nat, |i: int| 0xffffu16));
    }
    let mut storage: Vec<u8> = Vec::new();
    let mut legacy: Vec<u8> = Vec::new();
    assert(storage@ =~= seq![]);
    assert(legacy@ =~= seq![]);
    let mut c: usize = 0;
    while c < n
        invariant
            c <= n,
            n as nat == min_nat(col_count as nat, offset_slots()),
            offsets@.len() == offset_slots(),
            strings@.len() < u32::MAX,
            sv == strings@.map_values(|s: String| s@),
            rv == row_view(row@),
            row_layout(rv, c as nat, sv) == Ok::<(Seq<u8>, Seq<u16>, Seq<u8>), Error>((storage@, offsets@, legacy@)),
        decreases n - c,
    {
        let ghost st = storage@;
        let empty = if c < row.len() {
            match &row[c] {
                WritableCell::Empty => true,
                _ => false,
            }
        } else {
            true
        };
        if empty {
            push_column_record(&mut legacy, c as u16, 0xffff, 0);
        } else {
            if storage.len() > 0xffff {
                proof {
                    lemma_layout_error_stays(rv, (c + 1) as nat, n as nat, sv);
                }
                return Err(Error::InvalidIwa("cell storage offset overflow"));
            }
            let cell = &row[c];
            let rec = match encode_cell_record(cell, strings) {
                Ok(v) => v,
                Err(e) => {
                    proof {
                        lemma_layout_error_stays(rv, (c + 1) as nat, n as nat, sv);
                    }
                    return Err(e);
                },
            };
            let off = storage.len() as u16;
            crate::protobuf::extend_bytes(&mut storage, rec.as_slice());
            offsets.set(c, off);
            push_column_record(&mut legacy, c as u16, off, kind_of(cell));
        }
        c = c + 1;
    }
    let ob = offset_bytes_of(&offsets);
    let ob2 = offset_bytes_of(&offsets);
    let mut fields: Vec<ProtoField> = Vec::new();
    fields.push(ProtoField::varint(1, index as u64));
    fields.push(ProtoField::varint(2, col_count as u64));
    fields.push(ProtoField::bytes(3, legacy));
    fields.push(ProtoField::bytes(4, ob));
    fields.push(ProtoField::varint(5, 5));
    fields.push(ProtoField::bytes(6, storage));
    fields.push(ProtoField::bytes(7, ob2));
    assert(fields@.map_values(|f: ProtoField| f@) =~= row_fields(index as nat, rv, col_count as nat, sv)->Ok_0);
    Ok(fields)
}

// ───────────────────────────── tiles and string lists ─────────────────────────────

/// The length of the longest row.
pub open spec fn max_row_len(rows: Seq<Seq<WritableCellView>>) -> nat
    decreases rows.len(),
{
    if rows.len() == 0 {
        0
    } else {
        let m = max_row_len(rows.drop_last());
        if rows.last().len() > m {
            rows.last().len()
        } else {
            m
        }
    }
}

/// The row fields of the first `n` rows of a tile.
pub open spec fn rows_fields(rows: Seq<Seq<WritableCellView>>, n: nat, cc: nat, strings: Seq<Seq<char>>) -> Result<
    Seq<ProtoFieldView>,
    Error,
>
    decreases n,
{
    if n == 0 {
        Ok(seq![])
    } else {
        match rows_fields(rows, (n - 1) as nat, cc, strings) {
            Err(e) => Err(e),
            Ok(fs) => match row_fields((n - 1) as nat, rows[n - 1], cc, strings) {
                Err(e) => Err(e),
                Ok(rf) => Ok(fs.push(bfield(5, spec_encode_fields(rf)))),
            },
        }
    }
}

/// The body of a table's tile: the row count, one message per row laid out
/// across the longest row's columns, and the storage markers.
pub open spec fn tile_body(rows: Seq<Seq<WritableCellView>>, strings: Seq<Seq<char>>) -> Result<Seq<u8>, Error> {
    match rows_fields(rows, rows.len(), max_row_len(rows), strings) {
        Err(e) => Err(e),
        Ok(fs) => Ok(
            spec_encode_fields(
                seq![vfield(1, 0), vfield(2, 0), vfield(3, 0), vfield(4, rows.len() as u64)] + fs + seq![
                    vfield(6, 5),
                    vfield(7, 1),
                ],
            ),
        ),
    }
}

/// The strings in ascending order.
pub open spec fn sorted_texts(xs: Seq<Seq<char>>) -> Seq<Seq<char>>
    decreases xs.len(),
{
    if xs.len() == 0 {
        seq![]
    } else {
        insert_text(sorted_texts(xs.drop_last()), xs.last(), 0)
    }
}

/// The list entry of string `t`: its key, a reference count of one, the text.
pub open spec fn datalist_entry(strings: Seq<Seq<char>>, t: Seq<char>) -> ProtoFieldView {
    bfield(
        3,
        spec_encode_fields(
            seq![vfield(1, (position_from(strings, t, 0) + 1) as u64), vfield(2, 1), bfield(3, encode_utf8(t))],
        ),
    )
}

/// The body of a table's string list: its type, the next free key, and the
/// entries in ascending order of their texts.
pub open spec fn datalist_body(strings: Seq<Seq<char>>) -> Seq<u8> {
    spec_encode_fields(
        seq![vfield(1, 1), vfield(2, (strings.len() + 1) as u64)] + sorted_texts(strings).map_values(
            |t: Seq<char>| datalist_entry(strings, t),
        ),
    )
}

proof fn lemma_rows_error_stays(rows: Seq<Seq<WritableCellView>>, c: nat, m: nat, cc: nat, strings: Seq<Seq<char>>)
    requires
        c <= m,
        rows_fields(rows, c, cc, strings) is Err,
    ensures
        rows_fields(rows, m, cc, strings) == rows_fields(rows, c, cc, strings),
    decreases m - c,
{
    if m > c {
        lemma_rows_error_stays(rows, c, (m - 1) as nat, cc, strings);
    }
}

fn longest_row(rows: &Vec<Vec<WritableCell>>) -> (r: usize)
    ensures
        r as nat == max_row_len(rows_view(rows@)),
{
    let ghost rv = rows_view(rows@);
    let mut m: usize = 0;
    let mut i: usize = 0;
    while i < rows.len()
        invariant
            i <= rows@.len(),
            rv == rows_view(rows@),
            m as nat == max_row_len(rv.take(i as int)),
        decreases rows.len() - i,
    {
        assert(rv.take(i + 1).drop_last() =~= rv.take(i as int));
        assert(rv[i as int].len() == rows@[i as int]@.len());
        if rows[i].len() > m {
            m = rows[i].len();
        }
        i = i + 1;
    }
    assert(rv.take(rows@.len() as int) =~= rv);
    m
}

fn encode_tile_body(rows: &Vec<Vec<WritableCell>>, strings: &Vec<String>) -> (r: Result<Vec<u8>, Error>)
    requires
        strings@.len() < u32::MAX,
    ensures
        match tile_body(rows_view(rows@), strings@.map_values(|s: String| s@)) {
            Ok(b) => r matches Ok(v) && v@ == b,
            Err(e) => r == Err::<Vec<u8>, Error>(e),
        },
{
    let ghost rv = rows_view(rows@);
    let ghost sv = strings@.map_values(|s: String| s@);
    let cc = longest_row(rows);
    let mut fields: Vec<ProtoField> = Vec::new();
    fields.push(ProtoField::varint(1, 0));
    fields.push(ProtoField::varint(2, 0));
    fields.push(ProtoField::varint(3, 0));
    fields.push(ProtoField::varint(4, rows.len() as u64));
    let ghost start = seq![vfield(1, 0), vfield(2, 0), vfield(3, 0), vfield(4, rows@.len() as u64)];
    assert(fields@.map_values(|f: ProtoField| f@) =~= start + seq![]);
    let mut i: usize = 0;
    while i < rows.len()
        invariant
            i <= rows@.len(),
            rv == rows_view(rows@),
            sv == strings@.map_values(|s: String| s@),
            strings@.len() < u32::MAX,
            cc as nat == max_row_len(rv),
            rows_fields(rv, i as nat, cc as nat, sv) matches Ok(fs) && fields@.map_values(|f: ProtoField| f@)
                == start + fs,
        decreases rows.len() - i,
    {
        let ghost before = fields@.map_values(|f: ProtoField| f@);
        assert(rv[i as int] == row_view(rows@[i as int]@));
        let rf = match encode_row_fields(i, &rows[i], cc, strings) {
            Ok(v) => v,
            Err(e) => {
                proof {
                    lemma_rows_error_stays(rv, (i + 1) as nat, rows@.len() as nat, cc as nat, sv);
                }
                return Err(e);
            },
        };
        let msg = ProtoMessage::new(rf);
        let f = ProtoField::message(5, &msg)?;
        fields.push(f);
        assert(fields@.map_values(|f: ProtoField| f@) =~= before.push(f@));
        i = i + 1;
    }
    let ghost mid = fields@.map_values(|f: ProtoField| f@);
    fields.push(ProtoField::varint(6, 5));
    fields.push(ProtoField::varint(7, 1));
    assert(fields@.map_values(|f: ProtoField| f@) =~= mid + seq![vfield(6, 5), vfield(7, 1)]);
    ProtoMessage::new(fields).encode()
}

fn sorted_strings(strings: &Vec<String>) -> (r: Vec<String>)
    ensures
        r@.map_values(|s: String| s@) == sorted_texts(strings@.map_values(|s: String| s@)),
{
    let ghost sv = strings@.map_values(|s: String| s@);
    let mut out: Vec<String> = Vec::new();
    let mut i: usize = 0;
    assert(out@.map_values(|s: String| s@) =~= sorted_texts(sv.take(0)));
    while i < strings.len()
        invariant
            i <= strings@.len(),
            sv == strings@.map_values(|s: String| s@),
            out@.map_values(|s: String| s@) == sorted_texts(sv.take(i as int)),
        decreases strings.len() - i,
    {
        assert(sv.take(i + 1).drop_last() =~= sv.take(i as int));
        assert(sv[i as int] == strings@[i as int]@);
        let t = strings[i].clone();
        insert_text_vec(&mut out, t);
        i = i + 1;
    }
    assert(sv.take(strings@.len() as int) =~= sv);
    out
}

fn encode_datalist_body(strings: &Vec<String>) -> (r: Result<Vec<u8>, Error>)
    requires
        strings@.len() < u32::MAX,
    ensures
        r matches Ok(v) && v@ == datalist_body(strings@.map_values(|s: String| s@)),
{
    let ghost sv = strings@.map_values(|s: String| s@);
    let sorted = sorted_strings(strings);
    let ghost so = sorted@.map_values(|s: String| s@);
    let mut fields: Vec<ProtoField> = Vec::new();
    fields.push(ProtoField::varint(1, 1));
    fields.push(ProtoField::varint(2, strings.len() as u64 + 1));
    let ghost start = seq![vfield(1, 1), vfield(2, (sv.len() + 1) as u64)];
    assert(fields@.map_values(|f: ProtoField| f@) =~= start + so.take(0).map_values(
        |t: Seq<char>| datalist_entry(sv, t),
    ));
    let mut k: usize = 0;
    while k < sorted.len()
        invariant
            k <= sorted@.len(),
            so == sorted@.map_values(|s: String| s@),
            sv == strings@.map_values(|s: String| s@),
            strings@.len() < u32::MAX,
            fields@.map_values(|f: ProtoField| f@) == start + so.take(k as int).map_values(
                |t: Seq<char>| datalist_entry(sv, t),
            ),
        decreases sorted.len() - k,
    {
        let ghost before = fields@.map_values(|f: ProtoField| f@);
        let s = &sorted[k];
        assert(so[k as int] == s@);
        let p = position_of(strings, s.as_str());
        let mut inner: Vec<ProtoField> = Vec::new();
        inner.push(ProtoField::varint(1, p as u64 + 1));
        inner.push(ProtoField::varint(2, 1));
        inner.push(ProtoField::bytes(3, copy_bytes(s.as_str().as_bytes())));
        let m = ProtoMessage::new(inner);
        assert(m@ =~= seq![vfield(1, (position_from(sv, s@, 0) + 1) as u64), vfield(2, 1), bfield(3, encode_utf8(s@))]);
        let f = ProtoField::message(3, &m)?;
        fields.push(f);
        assert(so.take(k + 1).map_values(|t: Seq<char>| datalist_entry(sv, t)) =~= so.take(k as int).map_values(
            |t: Seq<char>| datalist_entry(sv, t),
        ).push(datalist_entry(sv, s@)));
        assert(fields@.map_values(|f: ProtoField| f@) =~= before.push(f@));
        k = k + 1;
    }
    assert(so.take(sorted@.len() as int) =~= so);
    ProtoMessage::new(fields).encode()
}

// ───────────────────────────── table archives ─────────────────────────────

/// A table to write: its name and its rows.
#[derive(Debug, Clone)]
pub struct WritableTable {
    name: String,
    rows: Vec<Vec<WritableCell>>,
}

/// What a [`WritableTable`] holds.
pub struct WritableTableView {
    pub name: Seq<char>,
    pub rows: Seq<Seq<WritableCellView>>,
}

impl View for WritableTable {
    type V = WritableTableView;

    closed spec fn view(&self) -> WritableTableView {
        WritableTableView { name: self.name@, rows: rows_view(self.rows@) }
    }
}

/// The encoded archives of one table.
#[derive(Debug, Clone)]
pub struct EncodedTableArchive {
    pub name: String,
    pub tile_path: String,
    pub tile: Vec<u8>,
    pub datalist_path: String,
    pub datalist: Vec<u8>,
}

/// What an [`EncodedTableArchive`] holds.
pub struct EncodedTableArchiveView {
    pub name: Seq<char>,
    pub tile_path: Seq<char>,
    pub tile: Seq<u8>,
    pub datalist_path: Seq<char>,
    pub datalist: Seq<u8>,
}

impl View for EncodedTableArchive {
    type V = EncodedTableArchiveView;

    open spec fn view(&self) -> EncodedTableArchiveView {
        EncodedTableArchiveView {
            name: self.name@,
            tile_path: self.tile_path@,
            tile: self.tile@,
            datalist_path: self.datalist_path@,
            datalist: self.datalist@,
        }
    }
}

/// The path of the tile of the `n`-th table.
pub open spec fn tile_path(n: nat) -> Seq<char> {
    "Index/Tables/Tile-"@ + decimal(n) + "-1.iwa"@
}

/// The path of the string list of the `n`-th table.
pub open spec fn datalist_path(n: nat) -> Seq<char> {
    "Index/Tables/DataList-"@ + decimal(n) + "-1.iwa"@
}

/// The archives of the table at `index`: a string list and a tile, each one
/// object with id 1.
pub open spec fn spec_table_archive(index: nat, t: WritableTableView) -> Result<EncodedTableArchiveView, Error> {
    let strings = table_strings(t.rows);
    match tile_body(t.rows, strings) {
        Err(e) => Err(e),
        Ok(tb) => Ok(
            EncodedTableArchiveView {
                name: t.name,
                tile_path: tile_path(index + 1),
                tile: single_object_archive(1, 6002, tb, seq![]),
                datalist_path: datalist_path(index + 1),
                datalist: single_object_archive(1, 6005, datalist_body(strings), seq![]),
            },
        ),
    }
}

/// The archives of the first `n` tables; the first table that cannot be
/// laid out gives the error.
pub open spec fn spec_table_archives(ts: Seq<WritableTableView>, n: nat) -> Result<Seq<EncodedTableArchiveView>, Error>
    decreases n,
{
    if n == 0 {
        Ok(seq![])
    } else {
        match spec_table_archives(ts, (n - 1) as nat) {
            Err(e) => Err(e),
            Ok(es) => match spec_table_archive((n - 1) as nat, ts[n - 1]) {
                Err(e) => Err(e),
                Ok(a) => Ok(es.push(a)),
            },
        }
    }
}

/// Every table's string list fits its `u32` keys.
pub open spec fn strings_fit(ts: Seq<WritableTableView>) -> bool {
    forall|i: int| 0 <= i < ts.len() ==> #[trigger] table_strings(ts[i].rows).len() < u32::MAX
}

proof fn lemma_tables_error_stays(ts: Seq<WritableTableView>, c: nat, m: nat)
    requires
        c <= m,
        spec_table_archives(ts, c) is Err,
    ensures
        spec_table_archives(ts, m) == spec_table_archives(ts, c),
    decreases m - c,
{
    if m > c {
        lemma_tables_error_stays(ts, c, (m - 1) as nat);
    }
}

fn numbered_path(prefix: &str, n: u64) -> (r: String)
    ensures
        r@ == prefix@ + decimal(n as nat) + "-1.iwa"@,
{
    let mut cs = chars_of(prefix);
    let digits = decimal_chars(n);
    let suffix = chars_of("-1.iwa");
    let ghost a = cs@;
    let mut i: usize = 0;
    while i < digits.len()
        invariant
            i <= digits@.len(),
            cs@ == a + digits@.subrange(0, i as int),
        decreases digits.len() - i,
    {
        cs.push(digits[i]);
        i = i + 1;
        assert(cs@ =~= a + digits@.subrange(0, i as int));
    }
    let ghost b = cs@;
    let mut k: usize = 0;
    while k < suffix.len()
        invariant
            k <= suffix@.len(),
            cs@ == b + suffix@.subrange(0, k as int),
        decreases suffix.len() - k,
    {
        cs.push(suffix[k]);
        k = k + 1;
        assert(cs@ =~= b + suffix@.subrange(0, k as int));
    }
    assert(digits@.subrange(0, digits@.len() as int) =~= digits@);
    assert(suffix@.subrange(0, suffix@.len() as int) =~= suffix@);
    string_from_chars(cs.as_slice())
}

impl WritableTable {
    /// An empty table with the given name.
    pub fn new(name: &str) -> (r: WritableTable)
        ensures
            r@.name == name@,
            r@.rows == Seq::<Seq<WritableCellView>>::empty(),
    {
        let t = WritableTable { name: name.to_owned(), rows: Vec::new() };
        assert(t@.rows =~= Seq::<Seq<WritableCellView>>::empty());
        t
    }

    /// The table's name.
    pub fn name(&self) -> (r: &str)
        ensures
            r@ == self@.name,
    {
        self.name.as_str()
    }

    /// The table's rows.
    pub fn rows(&self) -> (r: &[Vec<WritableCell>])
        ensures
            rows_view(r@) == self@.rows,
    {
        self.rows.as_slice()
    }

    /// Appends a row.
    pub fn push_row(&mut self, row: Vec<WritableCell>) -> (r: &mut WritableTable)
        ensures
            r@.name == old(self)@.name,
            r@.rows == old(self)@.rows.push(row_view(row@)),
            final(self)@ == final(r)@,
    {
        let ghost before = self@.rows;
        self.rows.push(row);
        assert(self@.rows =~= before.push(row_view(row@)));
        self
    }

    /// Encodes this table as the `index`-th table of a workbook.
    fn encode_archives(&self, index: usize) -> (r: Result<EncodedTableArchive, Error>)
        requires
            table_strings(self@.rows).len() < u32::MAX,
            index < usize::MAX,
        ensures
            match spec_table_archive(index as nat, self@) {
                Ok(a) => r matches Ok(x) && x@ == a,
                Err(e) => r == Err::<EncodedTableArchive, Error>(e),
            },
    {
        let strings = collect_strings(&self.rows);
        let tb = encode_tile_body(&self.rows, &strings)?;
        let none: Vec<IwaObjectReference> = Vec::new();
        assert(none@ =~= seq![]);
        let tile = encode_single_object(1, 6002, tb, none)?;
        let db = encode_datalist_body(&strings)?;
        let none2: Vec<IwaObjectReference> = Vec::new();
        assert(none2@ =~= seq![]);
        let datalist = encode_single_object(1, 6005, db, none2)?;
        let n = index as u64 + 1;
        Ok(EncodedTableArchive {
            name: self.name.clone(),
            tile_path: numbered_path("Index/Tables/Tile-", n),
            tile,
            datalist_path: numbered_path("Index/Tables/DataList-", n),
            datalist,
        })
    }
}

// ───────────────────────────── the workbook ─────────────────────────────

/// A workbook to write: its tables, in order.
#[derive(Debug, Clone)]
pub struct Workbook {
    tables: Vec<WritableTable>,
}

impl View for Workbook {
    type V = Seq<WritableTableView>;

    closed spec fn view(&self) -> Seq<WritableTableView> {
        self.tables@.map_values(|t: WritableTable| t@)
    }
}

/// The object ids of the infrastructure of a written `.numbers` package.
pub open spec fn numbers_ids() -> InfraIds {
    InfraIds {
        document: 1,
        metadata: 2,
        object_container: 61,
        document_metadata: 71,
        annotation: 80,
        stylesheet: 1002,
    }
}

/// The document object: it lists the calculation engine, the view state and
/// the stylesheet, and its body names the template and the annotation storage.
pub open spec fn numbers_document_body() -> Seq<u8> {
    let body = spec_encode_fields(
        seq![
            bfield(1, objref(1000)),
            bfield(4, objref(1000)),
            bfield(5, objref(1001)),
            bfield(6, objref(1002)),
            bfield(9, encode_utf8("Application/Blank/Traditional"@)),
            bfield(12, objref(80)),
        ],
    );
    spec_encode_fields(seq![bfield(1, objref(1000)), bfield(1, objref(1001)), bfield(1, objref(1002)), bfield(4, body)])
}

/// `Index/Document.iwa` of a written workbook.
pub open spec fn numbers_document_iwa() -> Seq<u8> {
    single_object_archive(1, 1, numbers_document_body(), one_ref(2, 3, 0))
}

/// `Index/CalculationEngine.iwa` of a written workbook.
pub open spec fn calculation_engine_iwa() -> Seq<u8> {
    single_object_archive(1000, 4000, spec_encode_fields(seq![vfield(1, 0), vfield(5, 0)]), one_ref(1, 1, 0))
}

/// `Index/ViewState.iwa` of a written workbook.
pub open spec fn view_state_iwa() -> Seq<u8> {
    single_object_archive(1001, 11012, spec_encode_fields(seq![vfield(1, 0), bfield(2, objref(1))]), seq![])
}

/// The members every written workbook starts with.
pub open spec fn numbers_base_members() -> Seq<(Seq<char>, Seq<u8>)> {
    let ids = numbers_ids();
    seq![
        ("Metadata/Properties.plist"@, encode_utf8(properties_plist_text())),
        ("Metadata/DocumentIdentifier"@, encode_utf8(document_identifier_text())),
        ("Metadata/BuildVersionHistory.plist"@, encode_utf8(build_version_history_text())),
        ("Index/Document.iwa"@, numbers_document_iwa()),
        ("Index/DocumentMetadata.iwa"@, document_metadata_archive(ids)),
        ("Index/Metadata.iwa"@, metadata_archive(ids)),
        ("Index/ObjectContainer.iwa"@, object_container_archive(ids)),
        ("Index/CalculationEngine.iwa"@, calculation_engine_iwa()),
        ("Index/ViewState.iwa"@, view_state_iwa()),
        ("Index/AnnotationAuthorStorage.iwa"@, annotation_archive(ids)),
        ("Index/DocumentStylesheet.iwa"@, stylesheet_archive(ids)),
    ]
}

/// The members of the encoded tables: each table's string list, then its tile.
pub open spec fn table_members(es: Seq<EncodedTableArchiveView>) -> Seq<(Seq<char>, Seq<u8>)>
    decreases es.len(),
{
    if es.len() == 0 {
        seq![]
    } else {
        table_members(es.drop_last()) + seq![
            (es.last().datalist_path, es.last().datalist),
            (es.last().tile_path, es.last().tile),
        ]
    }
}

/// The members of a written workbook, or the error that stops it.
pub open spec fn numbers_members(ts: Seq<WritableTableView>) -> Result<Seq<(Seq<char>, Seq<u8>)>, Error> {
    match spec_table_archives(ts, ts.len()) {
        Err(e) => Err(e),
        Ok(es) => Ok(numbers_base_members() + table_members(es)),
    }
}

fn push_field(fields: &mut Vec<ProtoField>, f: ProtoField)
    ensures
        final(fields)@.map_values(|x: ProtoField| x@) == old(fields)@.map_values(|x: ProtoField| x@).push(f@),
{
    fields.push(f);
    assert(fields@.map_values(|x: ProtoField| x@) =~= old(fields)@.map_values(|x: ProtoField| x@).push(f@));
}

fn encode_document_iwa() -> (r: Result<Vec<u8>, Error>)
    ensures
        r matches Ok(v) && v@ == numbers_document_iwa(),
{
    let mut inner: Vec<ProtoField> = Vec::new();
    push_field(&mut inner, ProtoField::bytes(1, object_reference(1000)?));
    push_field(&mut inner, ProtoField::bytes(4, object_reference(1000)?));
    push_field(&mut inner, ProtoField::bytes(5, object_reference(1001)?));
    push_field(&mut inner, ProtoField::bytes(6, object_reference(1002)?));
    push_field(&mut inner, ProtoField::bytes(9, copy_bytes("Application/Blank/Traditional".as_bytes())));
    push_field(&mut inner, ProtoField::bytes(12, object_reference(80)?));
    assert(inner@.map_values(|x: ProtoField| x@) =~= seq![
        bfield(1, objref(1000)),
        bfield(4, objref(1000)),
        bfield(5, objref(1001)),
        bfield(6, objref(1002)),
        bfield(9, encode_utf8("Application/Blank/Traditional"@)),
        bfield(12, objref(80)),
    ]);
    let inner_msg = ProtoMessage::new(inner);
    let mut outer: Vec<ProtoField> = Vec::new();
    push_field(&mut outer, ProtoField::bytes(1, object_reference(1000)?));
    push_field(&mut outer, ProtoField::bytes(1, object_reference(1001)?));
    push_field(&mut outer, ProtoField::bytes(1, object_reference(1002)?));
    push_field(&mut outer, ProtoField::message(4, &inner_msg)?);
    assert(outer@.map_values(|x: ProtoField| x@) =~= seq![
        bfield(1, objref(1000)),
        bfield(1, objref(1001)),
        bfield(1, objref(1002)),
        bfield(4, spec_encode_fields(inner_msg@)),
    ]);
    let body = ProtoMessage::new(outer).encode()?;
    assert(body@ == numbers_document_body());
    let refs = vec![IwaObjectReference { object_id: Some(2), kind_hint: Some(3), state_hint: Some(0) }];
    assert(refs@ =~= one_ref(2, 3, 0));
    encode_single_object(1, 1, body, refs)
}

fn encode_calculation_engine_iwa() -> (r: Result<Vec<u8>, Error>)
    ensures
        r matches Ok(v) && v@ == calculation_engine_iwa(),
{
    let mut f: Vec<ProtoField> = Vec::new();
    push_field(&mut f, ProtoField::varint(1, 0));
    push_field(&mut f, ProtoField::varint(5, 0));
    assert(f@.map_values(|x: ProtoField| x@) =~= seq![vfield(1, 0), vfield(5, 0)]);
    let body = ProtoMessage::new(f).encode()?;
    let refs = vec![IwaObjectReference { object_id: Some(1), kind_hint: Some(1), state_hint: Some(0) }];
    assert(refs@ =~= one_ref(1, 1, 0));
    encode_single_object(1000, 4000, body, refs)
}

fn encode_view_state_iwa() -> (r: Result<Vec<u8>, Error>)
    ensures
        r matches Ok(v) && v@ == view_state_iwa(),
{
    let mut f: Vec<ProtoField> = Vec::new();
    push_field(&mut f, ProtoField::varint(1, 0));
    push_field(&mut f, ProtoField::bytes(2, object_reference(1)?));
    assert(f@.map_values(|x: ProtoField| x@) =~= seq![vfield(1, 0), bfield(2, objref(1))]);
    let body = ProtoMessage::new(f).encode()?;
    let none: Vec<IwaObjectReference> = Vec::new();
    assert(none@ =~= seq![]);
    encode_single_object(1001, 11012, body, none)
}

fn base_writer() -> (r: Result<PackageWriter, Error>)
    ensures
        r matches Ok(w) && w@ == numbers_base_members(),
{
    let ids = InfraIds {
        document: 1,
        metadata: 2,
        object_container: 61,
        document_metadata: 71,
        annotation: 80,
        stylesheet: 1002,
    };
    let infra = encode_infra_archives(&ids)?;
    let document_iwa = encode_document_iwa()?;
    let calculation_engine = encode_calculation_engine_iwa()?;
    let view_state = encode_view_state_iwa()?;
    let InfraArchives { document_metadata, metadata, object_container, annotation_author_storage, document_stylesheet } =
        infra;
    let mut writer = PackageWriter::new();
    writer.add_entry("Metadata/Properties.plist", properties_plist());
    writer.add_entry("Metadata/DocumentIdentifier", document_identifier());
    writer.add_entry("Metadata/BuildVersionHistory.plist", build_version_history_plist());
    writer.add_entry("Index/Document.iwa", document_iwa);
    writer.add_entry("Index/DocumentMetadata.iwa", document_metadata);
    writer.add_entry("Index/Metadata.iwa", metadata);
    writer.add_entry("Index/ObjectContainer.iwa", object_container);
    writer.add_entry("Index/CalculationEngine.iwa", calculation_engine);
    writer.add_entry("Index/ViewState.iwa", view_state);
    writer.add_entry("Index/AnnotationAuthorStorage.iwa", annotation_author_storage);
    writer.add_entry("Index/DocumentStylesheet.iwa", document_stylesheet);
    assert(writer@ =~= numbers_base_members());
    Ok(writer)
}

fn add_table_members(writer: &mut PackageWriter, archives: &Vec<EncodedTableArchive>)
    ensures
        final(writer)@ == old(writer)@ + table_members(archives@.map_values(|a: EncodedTableArchive| a@)),
{
    let ghost es = archives@.map_values(|a: EncodedTableArchive| a@);
    let ghost base = writer@;
    let mut k: usize = 0;
    assert(es.take(0) =~= seq![]);
    assert(writer@ =~= base + table_members(es.take(0)));
    while k < archives.len()
        invariant
            k <= archives@.len(),
            es == archives@.map_values(|a: EncodedTableArchive| a@),
            writer@ == base + table_members(es.take(k as int)),
        decreases archives.len() - k,
    {
        let a = &archives[k];
        assert(es[k as int] == a@);
        assert(es.take(k + 1).drop_last() =~= es.take(k as int));
        writer.add_entry(a.datalist_path.as_str(), copy_bytes(a.datalist.as_slice()));
        writer.add_entry(a.tile_path.as_str(), copy_bytes(a.tile.as_slice()));
        k = k + 1;
        assert(writer@ =~= base + table_members(es.take(k as int)));
    }
    assert(es.take(archives@.len() as int) =~= es);
}

impl Workbook {
    /// An empty workbook.
    pub fn new() -> (r: Workbook)
        ensures
            r@ == Seq::<WritableTableView>::empty(),
    {
        let w = Workbook { tables: Vec::new() };
        assert(w@ =~= Seq::<WritableTableView>::empty());
        w
    }

    /// Appends a table.
    pub fn add_table(&mut self, table: WritableTable) -> (r: &mut Workbook)
        ensures
            r@ == old(self)@.push(table@),
            final(self)@ == final(r)@,
    {
        let ghost before = self@;
        self.tables.push(table);
        assert(self@ =~= before.push(table@));
        self
    }

    /// The workbook's tables.
    pub fn tables(&self) -> (r: &[WritableTable])
        ensures
            r@.map_values(|t: WritableTable| t@) == self@,
    {
        self.tables.as_slice()
    }

    /// Encodes each table as a string list and a tile, in order; the first
    /// table that cannot be laid out gives the error.
    pub fn encode_table_archives(&self) -> (r: Result<Vec<EncodedTableArchive>, Error>)
        requires
            strings_fit(self@),
        ensures
            match spec_table_archives(self@, self@.len()) {
                Ok(es) => r matches Ok(v) && v@.map_values(|a: EncodedTableArchive| a@) == es,
                Err(e) => r == Err::<Vec<EncodedTableArchive>, Error>(e),
            },
    {
        let ghost ts = self@;
        let mut out: Vec<EncodedTableArchive> = Vec::new();
        let mut i: usize = 0;
        assert(out@.map_values(|a: EncodedTableArchive| a@) =~= seq![]);
        while i < self.tables.len()
            invariant
                i <= self.tables@.len(),
                ts == self@,
                strings_fit(ts),
                spec_table_archives(ts, i as nat) matches Ok(es) && out@.map_values(
                    |a: EncodedTableArchive| a@,
                ) == es,
            decreases self.tables.len() - i,
        {
            let ghost before = out@.map_values(|a: EncodedTableArchive| a@);
            assert(ts[i as int] == self.tables@[i as int]@);
            let a = match self.tables[i].encode_archives(i) {
                Ok(a) => a,
                Err(e) => {
                    proof {
                        lemma_tables_error_stays(ts, (i + 1) as nat, ts.len() as nat);
                    }
                    return Err(e);
                },
            };
            let ghost av = a@;
            out.push(a);
            assert(out@.map_values(|a: EncodedTableArchive| a@) =~= before.push(av));
            i = i + 1;
        }
        Ok(out)
    }

    /// Serializes this workbook as a minimal `.numbers` package: metadata,
    /// the core `Index/` archives, and each table's string list and tile.
    pub fn to_numbers_bytes(&self) -> (r: Result<Vec<u8>, Error>)
        requires
            strings_fit(self@),
        ensures
            match numbers_members(self@) {
                Ok(ms) => (zip_fits(member_bytes(ms)) ==> (r matches Ok(v) && v@ == spec_zip(member_bytes(ms))))
                    && (!zip_fits(member_bytes(ms)) ==> r matches Err(Error::InvalidCentralDirectory)),
                Err(e) => r == Err::<Vec<u8>, Error>(e),
            },
    {
        let mut writer = base_writer()?;
        let archives = self.encode_table_archives()?;
        add_table_members(&mut writer, &archives);
        writer.finish()
    }
}
// ───────────────────────────── laws ─────────────────────────────

pub(crate) proof fn lemma_first_texts(cells: Seq<WritableCellView>)
    ensures
        first_texts(cells).no_duplicates(),
        forall|k: int| #![trigger cells[k]] 0 <= k < cells.len() ==> (cells[k] matches WritableCellView::Text(t) ==> first_texts(cells).contains(t)),
    decreases cells.len(),
{
    if cells.len() > 0 {
        let prev = first_texts(cells.drop_last());
        lemma_first_texts(cells.drop_last());
        assert forall|k: int| #![trigger cells[k]] 0 <= k < cells.len() implies (cells[k] matches WritableCellView::Text(t) ==> first_texts(cells).contains(t)) by {
            if k < cells.len() - 1 {
                assert(cells[k] == cells.drop_last()[k]);
                if let WritableCellView::Text(t) = cells[k] {
                    assert(prev.contains(t));
                    let w = choose|w: int| 0 <= w < prev.len() && prev[w] == t;
                    assert(first_texts(cells)[w] == t);
                }
            } else {
                assert(cells[k] == cells.last());
                if let WritableCellView::Text(t) = cells[k] {
                    if !prev.contains(t) {
                        assert(first_texts(cells)[prev.len() as int] == t);
                    }
                }
            }
        }
        match cells.last() {
            WritableCellView::Text(t) => {
                if !prev.contains(t) {
                    assert forall|a: int, b: int| 0 <= a < b < prev.push(t).len() implies prev.push(t)[a] != prev.push(t)[b] by {
                        if b == prev.len() {
                            assert(prev[a] == prev.push(t)[a]);
                        }
                    }
                    assert(prev.push(t)[prev.len() as int] == t);
                }
            },
            _ => {},
        }
    }
}

pub(crate) proof fn lemma_flat_cells(rows: Seq<Seq<WritableCellView>>, i: int, j: int)
    requires
        0 <= i < rows.len(),
        0 <= j < rows[i].len(),
    ensures
        flat_cells(rows).contains(rows[i][j]),
    decreases rows.len(),
{
    let a = flat_cells(rows.drop_last());
    assert(flat_cells(rows) == a + rows.last());
    if i < rows.len() - 1 {
        assert(rows.drop_last()[i] == rows[i]);
        lemma_flat_cells(rows.drop_last(), i, j);
        let w = choose|w: int| 0 <= w < a.len() && a[w] == rows[i][j];
        assert(flat_cells(rows)[w] == rows[i][j]);
    } else {
        assert(flat_cells(rows)[a.len() + j] == rows[i][j]);
    }
}

pub(crate) proof fn lemma_position(xs: Seq<Seq<char>>, t: Seq<char>, j: int, k: int)
    requires
        0 <= j <= k < xs.len(),
        xs[k] == t,
    ensures
        j <= position_from(xs, t, j) <= k,
        xs[position_from(xs, t, j)] == t,
    decreases k - j,
{
    if xs[j] != t {
        lemma_position(xs, t, j + 1, k);
    }
}

/// Law: the string list written for a table holds each text of its cells
/// exactly once, and the key a text cell records names the entry that holds
/// its text, so writing a cell never fails for want of a key.
pub proof fn lemma_text_cells_keyed(rows: Seq<Seq<WritableCellView>>, i: int, j: int)
    requires
        0 <= i < rows.len(),
        0 <= j < rows[i].len(),
        rows[i][j] is Text,
        table_strings(rows).len() < u32::MAX,
    ensures
        table_strings(rows).no_duplicates(),
        rows[i][j] matches WritableCellView::Text(t) && text_key(table_strings(rows), t) matches Some(key) && 1 <= key
            <= table_strings(rows).len() && table_strings(rows)[key - 1] == t,
{
    let cells = flat_cells(rows);
    let xs = table_strings(rows);
    lemma_first_texts(cells);
    lemma_flat_cells(rows, i, j);
    let c = rows[i][j];
    let w = choose|w: int| 0 <= w < cells.len() && cells[w] == c;
    assert(cells[w] == c);
    if let WritableCellView::Text(t) = c {
        assert(xs.contains(t));
        let k = choose|k: int| 0 <= k < xs.len() && xs[k] == t;
        lemma_position(xs, t, 0, k);
    }
}

} // verus!
