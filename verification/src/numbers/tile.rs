//! The rows of a table tile and the raw cell records each row holds.
use crate::iwa::{leading_len, IwaArchive};
use crate::numbers::datalist::{remaining, saturating_add};
use crate::protobuf::{
    bytes_value, copy_bytes, first_field, lemma_read_varint_advances, nested_message, read_varint,
    spec_decode_message, spec_read_varint, varint_value, ProtoField, ProtoFieldView, ProtoMessage, ProtoValue,
};
use vstd::prelude::*;

verus! {

/// The cell slot of an empty column.
pub const EMPTY_SLOT: u16 = 0xffff;

/// One row of a tile: its index and, per column up to the last filled one,
/// the cell record (the storage bytes from the cell's offset on), or `None`
/// for an empty column.
#[derive(Debug, Clone, PartialEq, Eq)]
pub struct RawRow {
    pub index: u64,
    pub cells: Vec<Option<Vec<u8>>>,
}

/// The mathematical content of a [`RawRow`].
pub struct RawRowView {
    pub index: u64,
    pub cells: Seq<Option<Seq<u8>>>,
}

/// The view of an optional byte vector.
pub open spec fn opt_bytes(b: Option<Vec<u8>>) -> Option<Seq<u8>> {
    match b {
        Some(v) => Some(v@),
        None => None,
    }
}

impl View for RawRow {
    type V = RawRowView;

    open spec fn view(&self) -> RawRowView {
        RawRowView { index: self.index, cells: self.cells@.map_values(|c: Option<Vec<u8>>| opt_bytes(c)) }
    }
}

/// The `i`-th little-endian 16-bit slot of an offset array.
pub open spec fn slot(offsets: Seq<u8>, i: int) -> u16 {
    (offsets[2 * i] as nat + 256 * (offsets[2 * i + 1] as nat)) as u16
}

/// One past the last filled slot among the first `n` slots, or `0`.
pub open spec fn filled_columns(offsets: Seq<u8>, n: int) -> int
    decreases n,
{
    if n <= 0 {
        0
    } else if slot(offsets, n - 1) != EMPTY_SLOT {
        n
    } else {
        filled_columns(offsets, n - 1)
    }
}

/// The record of a cell whose slot is `off`.
pub open spec fn cell_record(storage: Seq<u8>, off: u16) -> Option<Seq<u8>> {
    if off == EMPTY_SLOT || off > storage.len() {
        None
    } else {
        Some(storage.subrange(off as int, storage.len() as int))
    }
}

/// The cells of a row message: field 7 is the array of cell offsets into
/// the storage of field 6; columns run up to the last filled slot.
pub open spec fn spec_raw_cells(fs: Seq<ProtoFieldView>) -> Seq<Option<Seq<u8>>> {
    let storage = match bytes_value(first_field(fs, 6)) {
        Some(b) => b,
        None => seq![],
    };
    let offsets = match bytes_value(first_field(fs, 7)) {
        Some(b) => b,
        None => seq![],
    };
    let n = filled_columns(offsets, (offsets.len() / 2) as int);
    Seq::new(n as nat, |i: int| cell_record(storage, slot(offsets, i)))
}

/// The row a record contributes: a message with at least one field; its
/// index is field 1, or 0.
pub open spec fn row_of(chunk: Seq<u8>) -> Option<RawRowView> {
    match spec_decode_message(chunk) {
        Ok(fs) => if fs.len() == 0 {
            None
        } else {
            Some(
                RawRowView {
                    index: match varint_value(first_field(fs, 1)) {
                        Some(v) => v,
                        None => 0,
                    },
                    cells: spec_raw_cells(fs),
                },
            )
        },
        Err(_) => None,
    }
}

/// Scanning a tile body from `c`: each length-delimited record that is a row
/// is appended; varint and fixed fields are skipped; the scan stops at an
/// unreadable tag or length, a group wire type, or a record that runs past
/// the body (bodies are shorter than `usize::MAX`).
pub open spec fn rows_scan(body: Seq<u8>, c: int, rows: Seq<RawRowView>) -> Seq<RawRowView>
    decreases remaining(body.len(), c),
{
    if c < 0 || c >= body.len() || body.len() > usize::MAX {
        rows
    } else {
        let (tr, c1) = spec_read_varint(body, c);
        proof {
            lemma_read_varint_advances(body, c);
        }
        match tr {
            Err(_) => rows,
            Ok(tag) => {
                let wt = tag & 7;
                if wt == 0 {
                    proof {
                        lemma_read_varint_advances(body, c1);
                    }
                    rows_scan(body, spec_read_varint(body, c1).1, rows)
                } else if wt == 1 {
                    rows_scan(body, saturating_add(c1, 8), rows)
                } else if wt == 5 {
                    rows_scan(body, saturating_add(c1, 4), rows)
                } else if wt == 2 {
                    let (lr, c2) = spec_read_varint(body, c1);
                    proof {
                        lemma_read_varint_advances(body, c1);
                    }
                    match lr {
                        Err(_) => rows,
                        Ok(len) => if len > usize::MAX || c2 + len > usize::MAX || c2 + len > body.len() {
                            rows
                        } else {
                            let c3 = c2 + len;
                            match row_of(body.subrange(c2, c3)) {
                                Some(r) => rows_scan(body, c3, rows.push(r)),
                                None => rows_scan(body, c3, rows),
                            }
                        },
                    }
                } else {
                    rows
                }
            },
        }
    }
}

/// The rows of a tile archive: its body scanned from the end of the leading
/// reference records.
pub open spec fn spec_raw_rows(body: Seq<u8>) -> Seq<RawRowView> {
    rows_scan(body, leading_len(body, 0), seq![])
}

fn bytes_field(m: &ProtoMessage, n: u32) -> (r: Vec<u8>)
    ensures
        r@ == match bytes_value(first_field(m@, n)) {
            Some(b) => b,
            None => seq![],
        },
{
    match m.field(n) {
        Some(f) => match f.value.as_bytes() {
            Some(b) => copy_bytes(b),
            None => Vec::new(),
        },
        None => Vec::new(),
    }
}

/// The cells of a row message (see [`spec_raw_cells`]).
pub fn raw_cells(m: &ProtoMessage) -> (r: Vec<Option<Vec<u8>>>)
    ensures
        r@.map_values(|c: Option<Vec<u8>>| opt_bytes(c)) == spec_raw_cells(m@),
{
    let storage = bytes_field(m, 6);
    let offsets = bytes_field(m, 7);
    let olen = offsets.len();
    let slots = olen / 2;
    let mut slot_values: Vec<u16> = Vec::new();
    let mut i: usize = 0;
    while i < slots
        invariant
            i <= slots,
            olen == offsets@.len(),
            slots == offsets@.len() / 2,
            slot_values@.len() == i,
            forall|j: int| 0 <= j < i ==> slot_values@[j] == slot(offsets@, j),
        decreases slots - i,
    {
        let v = (offsets[2 * i] as u16) + (offsets[2 * i + 1] as u16) * 256;
        slot_values.push(v);
        i = i + 1;
    }
    let mut n: usize = slots;
    while n > 0 && slot_values[n - 1] == EMPTY_SLOT
        invariant
            n <= slots,
            slots == offsets@.len() / 2,
            slot_values@.len() == slots,
            forall|j: int| 0 <= j < slots ==> slot_values@[j] == slot(offsets@, j),
            filled_columns(offsets@, slots as int) == filled_columns(offsets@, n as int),
        decreases n,
    {
        n = n - 1;
    }
    let mut cells: Vec<Option<Vec<u8>>> = Vec::new();
    let mut k: usize = 0;
    while k < n
        invariant
            k <= n,
            n <= slots,
            slot_values@.len() == slots,
            forall|j: int| 0 <= j < slots ==> slot_values@[j] == slot(offsets@, j),
            cells@.len() == k,
            forall|j: int| 0 <= j < k ==> opt_bytes(#[trigger] cells@[j]) == cell_record(storage@, slot(offsets@, j)),
        decreases n - k,
    {
        let off = slot_values[k];
        let cell = if off == EMPTY_SLOT || off as usize > storage.len() {
            None
        } else {
            Some(copy_bytes(&storage.as_slice()[off as usize..storage.len()]))
        };
        cells.push(cell);
        k = k + 1;
    }
    assert(cells@.map_values(|c: Option<Vec<u8>>| opt_bytes(c)) =~= spec_raw_cells(m@));
    cells
}

fn row_from_chunk(chunk: &[u8]) -> (r: Option<RawRow>)
    ensures
        match row_of(chunk@) {
            Some(v) => r matches Some(x) && x@ == v,
            None => r is None,
        },
{
    let msg = match ProtoMessage::decode(chunk) {
        Ok(m) => m,
        Err(_) => return None,
    };
    if msg.fields().len() == 0 {
        return None;
    }
    let index = match msg.field(1) {
        Some(f) => match f.value.as_varint() {
            Some(v) => v,
            None => 0,
        },
        None => 0,
    };
    Some(RawRow { index, cells: raw_cells(&msg) })
}

/// Decodes the rows of a tile archive (see [`spec_raw_rows`]).
pub fn decode_raw_rows(tile: &IwaArchive) -> (r: Vec<RawRow>)
    ensures
        r@.map_values(|x: RawRow| x@) == spec_raw_rows(tile@.body),
{
    let mut rows: Vec<RawRow> = Vec::new();
    let body = tile.body();
    let mut cursor = tile.leading_object_references_len();
    let ghost target = spec_raw_rows(body@);
    assert(rows@.map_values(|x: RawRow| x@) =~= Seq::<RawRowView>::empty());
    while cursor < body.len()
        invariant_except_break
            target == rows_scan(body@, cursor as int, rows@.map_values(|x: RawRow| x@)),
        invariant
            target == spec_raw_rows(body@),
        ensures
            target == rows@.map_values(|x: RawRow| x@),
        decreases remaining(body@.len(), cursor as int),
    {
        let ghost c0 = cursor as int;
        proof {
            lemma_read_varint_advances(body@, c0);
        }
        let tag = match read_varint(body, &mut cursor) {
            Ok(t) => t,
            Err(_) => break,
        };
        let ghost c1 = cursor as int;
        proof {
            lemma_read_varint_advances(body@, c1);
        }
        let wire_type = tag & 0x07;
        if wire_type == 0 {
            let _ = read_varint(body, &mut cursor);
        } else if wire_type == 1 {
            cursor = cursor.saturating_add(8);
        } else if wire_type == 5 {
            cursor = cursor.saturating_add(4);
        } else if wire_type == 2 {
            let lv = match read_varint(body, &mut cursor) {
                Ok(l) => l,
                Err(_) => break,
            };
            if lv > usize::MAX as u64 {
                break;
            }
            let end = match cursor.checked_add(lv as usize) {
                Some(e) => e,
                None => break,
            };
            if end > body.len() {
                break;
            }
            let row = row_from_chunk(&body[cursor..end]);
            cursor = end;
            if let Some(r) = row {
                let ghost before = rows@.map_values(|x: RawRow| x@);
                let ghost rv = r@;
                rows.push(r);
                assert(rows@.map_values(|x: RawRow| x@) =~= before.push(rv));
            }
        } else {
            break;
        }
    }
    rows
}

// ───────────────────────────── tile messages ─────────────────────────────

/// The 16-bit little-endian slots of an offset array, one per whole pair of
/// bytes.
pub open spec fn slots_of(offsets: Seq<u8>) -> Seq<u16> {
    Seq::new(offsets.len() / 2, |i: int| slot(offsets, i))
}

/// What a row field of a tile message holds: its index (field 1, or 0), its
/// cell storage (field 6, or nothing) and its cell offsets (field 7), when
/// its value is a message.
pub open spec fn tile_row_of(f: ProtoFieldView) -> Option<(u64, Seq<u8>, Seq<u16>)> {
    match nested_message(f.value) {
        Some(row) => Some(
            (
                match varint_value(first_field(row, 1)) {
                    Some(v) => v,
                    None => 0,
                },
                match bytes_value(first_field(row, 6)) {
                    Some(b) => b,
                    None => seq![],
                },
                slots_of(
                    match bytes_value(first_field(row, 7)) {
                        Some(b) => b,
                        None => seq![],
                    },
                ),
            ),
        ),
        None => None,
    }
}

/// The rows among the fields numbered 5 of a tile message, in order.
pub open spec fn tile_rows_in(fs: Seq<ProtoFieldView>) -> Seq<(u64, Seq<u8>, Seq<u16>)>
    decreases fs.len(),
{
    if fs.len() == 0 {
        seq![]
    } else {
        let r = tile_rows_in(fs.drop_last());
        if fs.last().number == 5 {
            match tile_row_of(fs.last()) {
                Some(x) => r.push(x),
                None => r,
            }
        } else {
            r
        }
    }
}

/// The rows of a tile archive whose body is one tile message; none when the
/// body is not a message.
pub open spec fn spec_tile_rows(body: Seq<u8>) -> Seq<(u64, Seq<u8>, Seq<u16>)> {
    match spec_decode_message(body) {
        Ok(fs) => tile_rows_in(fs),
        Err(_) => seq![],
    }
}

/// The view of a list of tile rows.
pub open spec fn tile_rows_view(v: Seq<(u64, Vec<u8>, Vec<u16>)>) -> Seq<(u64, Seq<u8>, Seq<u16>)> {
    v.map_values(|r: (u64, Vec<u8>, Vec<u16>)| (r.0, r.1@, r.2@))
}

fn slot_values(offsets: &[u8]) -> (r: Vec<u16>)
    ensures
        r@ == slots_of(offsets@),
{
    let len = offsets.len();
    let n = len / 2;
    assert(2 * n <= offsets@.len()) by (nonlinear_arith)
        requires
            n == offsets@.len() / 2,
    ;
    let mut out: Vec<u16> = Vec::new();
    let mut i: usize = 0;
    while i < n
        invariant
            i <= n,
            n == offsets@.len() / 2,
            len == offsets@.len(),
            2 * n <= len,
            out@.len() == i,
            forall|j: int| 0 <= j < i ==> out@[j] == slot(offsets@, j),
        decreases n - i,
    {
        out.push((offsets[2 * i] as u16) + (offsets[2 * i + 1] as u16) * 256);
        i = i + 1;
    }
    assert(out@ =~= slots_of(offsets@));
    out
}

fn tile_row_from(f: &ProtoField) -> (r: Option<(u64, Vec<u8>, Vec<u16>)>)
    ensures
        match tile_row_of(f@) {
            Some(x) => r matches Some(y) && y.0 == x.0 && y.1@ == x.1 && y.2@ == x.2,
            None => r is None,
        },
{
    let row = match &f.value {
        ProtoValue::LengthDelimited(b) => match ProtoMessage::decode(b.as_slice()) {
            Ok(m) => m,
            Err(_) => return None,
        },
        _ => return None,
    };
    let index = match row.field(1) {
        Some(x) => match x.value.as_varint() {
            Some(v) => v,
            None => 0,
        },
        None => 0,
    };
    let storage = bytes_field(&row, 6);
    let offsets = bytes_field(&row, 7);
    Some((index, storage, slot_values(offsets.as_slice())))
}

/// The rows of a tile archive's body read as one tile message: each row's
/// index, cell storage and cell offsets (see [`spec_tile_rows`]).
pub fn tile_rows(archive: &IwaArchive) -> (r: Vec<(u64, Vec<u8>, Vec<u16>)>)
    ensures
        tile_rows_view(r@) == spec_tile_rows(archive@.body),
{
    let mut out: Vec<(u64, Vec<u8>, Vec<u16>)> = Vec::new();
    assert(tile_rows_view(out@) =~= seq![]);
    let body = match ProtoMessage::decode(archive.body()) {
        Ok(m) => m,
        Err(_) => return out,
    };
    let fields = body.fields();
    let ghost fs = body@;
    let mut i: usize = 0;
    while i < fields.len()
        invariant
            i <= fields@.len(),
            fs == body@,
            fields@.map_values(|f: ProtoField| f@) == fs,
            tile_rows_view(out@) == tile_rows_in(fs.take(i as int)),
        decreases fields.len() - i,
    {
        assert(fs.take(i + 1).drop_last() =~= fs.take(i as int));
        assert(fs.take(i + 1).last() == fields@[i as int]@);
        if fields[i].number == 5 {
            if let Some(row) = tile_row_from(&fields[i]) {
                let ghost before = tile_rows_view(out@);
                let ghost rv = (row.0, row.1@, row.2@);
                out.push(row);
                assert(tile_rows_view(out@) =~= before.push(rv));
            }
        }
        i = i + 1;
    }
    assert(fs.take(fields@.len() as int) =~= fs);
    out
}

} // verus!
