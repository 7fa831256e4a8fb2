//! The wide cell records of a table tile: what each record's type byte,
//! flags and value bytes hold. Floating-point values are kept as the bits of
//! their IEEE doubles, decimal values as their sixteen raw bytes, and text as
//! the key of its string in the table's string list.
use vstd::prelude::*;

verus! {

/// The version byte that opens a wide cell record.
pub const WIDE_CELL_VERSION: u8 = 5;

/// The value of one cell record.
#[derive(Debug, Clone, PartialEq, Eq)]
pub enum CellRecord {
    /// No value, or a record that cannot be read.
    Empty,
    /// A checkbox cell (type 6): whether its double is not zero.
    Bool(bool),
    /// A date cell (type 5): the bits of the seconds since 2001-01-01 UTC.
    Date(u64),
    /// A duration cell (type 7): the bits of its seconds.
    Duration(u64),
    /// A cell holding a formula error (type 8).
    Error,
    /// A number cell (types 2 and 10) stored as a double: its bits.
    Number(u64),
    /// A number cell (types 2 and 10) stored as an IEEE 754-2008
    /// decimal128 (flag bit 0): its sixteen bytes, little-endian.
    Decimal(Vec<u8>),
    /// A text cell (type 3): the key of its string.
    Text(u32),
}

/// The mathematical content of a [`CellRecord`].
pub enum CellRecordView {
    Empty,
    Bool(bool),
    Date(u64),
    Duration(u64),
    Error,
    Number(u64),
    Decimal(Seq<u8>),
    Text(u32),
}

impl View for CellRecord {
    type V = CellRecordView;

    open spec fn view(&self) -> CellRecordView {
        match self {
            CellRecord::Empty => CellRecordView::Empty,
            CellRecord::Bool(b) => CellRecordView::Bool(*b),
            CellRecord::Date(x) => CellRecordView::Date(*x),
            CellRecord::Duration(x) => CellRecordView::Duration(*x),
            CellRecord::Error => CellRecordView::Error,
            CellRecord::Number(x) => CellRecordView::Number(*x),
            CellRecord::Decimal(b) => CellRecordView::Decimal(b@),
            CellRecord::Text(k) => CellRecordView::Text(*k),
        }
    }
}

/// The little-endian `u32` in the four bytes of `b` from `i`.
pub open spec fn le_u32_at(b: Seq<u8>, i: int) -> u32 {
    (b[i] as u32 + b[i + 1] as u32 * 0x100 + b[i + 2] as u32 * 0x1_0000 + b[i + 3] as u32 * 0x100_0000) as u32
}

/// The little-endian `u64` in the eight bytes of `b` from `i`.
pub open spec fn le_u64_at(b: Seq<u8>, i: int) -> u64 {
    (b[i] as u64 + b[i + 1] as u64 * 0x100 + b[i + 2] as u64 * 0x1_0000 + b[i + 3] as u64 * 0x100_0000
        + b[i + 4] as u64 * 0x1_0000_0000 + b[i + 5] as u64 * 0x100_0000_0000 + b[i + 6] as u64
        * 0x1_0000_0000_0000 + b[i + 7] as u64 * 0x100_0000_0000_0000) as u64
}

/// The double at byte 12 of a record, as bits, when eight bytes are there.
pub open spec fn double_at_12(rec: Seq<u8>) -> Option<u64> {
    if rec.len() >= 20 {
        Some(le_u64_at(rec, 12))
    } else {
        None
    }
}

/// What a wide cell record holds: version byte 5, the type at byte 1, the
/// little-endian flags at bytes 8–11, and the value from byte 12. A record
/// shorter than 12 bytes, of another version, of an unknown type or whose
/// value bytes are missing holds nothing.
pub open spec fn spec_cell_record(rec: Seq<u8>) -> CellRecordView {
    if rec.len() < 12 || rec[0] != WIDE_CELL_VERSION {
        CellRecordView::Empty
    } else {
        let t = rec[1];
        if t == 2 || t == 10 {
            if le_u32_at(rec, 8) % 2 == 1 {
                if rec.len() >= 28 {
                    CellRecordView::Decimal(rec.subrange(12, 28))
                } else {
                    CellRecordView::Empty
                }
            } else {
                match double_at_12(rec) {
                    Some(x) => CellRecordView::Number(x),
                    None => CellRecordView::Empty,
                }
            }
        } else if t == 6 {
            match double_at_12(rec) {
                // A double is zero exactly when all its bits but the sign are.
                Some(x) => CellRecordView::Bool(x % 0x8000_0000_0000_0000 != 0),
                None => CellRecordView::Empty,
            }
        } else if t == 5 {
            match double_at_12(rec) {
                Some(x) => CellRecordView::Date(x),
                None => CellRecordView::Empty,
            }
        } else if t == 7 {
            match double_at_12(rec) {
                Some(x) => CellRecordView::Duration(x),
                None => CellRecordView::Empty,
            }
        } else if t == 8 {
            CellRecordView::Error
        } else if t == 3 {
            if rec.len() >= 16 {
                CellRecordView::Text(le_u32_at(rec, 12))
            } else {
                CellRecordView::Empty
            }
        } else {
            CellRecordView::Empty
        }
    }
}

fn read_le_u32(b: &[u8], i: usize) -> (r: u32)
    requires
        i + 4 <= b@.len(),
    ensures
        r == le_u32_at(b@, i as int),
{
    b[i] as u32 + b[i + 1] as u32 * 0x100 + b[i + 2] as u32 * 0x1_0000 + b[i + 3] as u32 * 0x100_0000
}

fn read_le_u64(b: &[u8], i: usize) -> (r: u64)
    requires
        i + 8 <= b@.len(),
    ensures
        r == le_u64_at(b@, i as int),
{
    b[i] as u64 + b[i + 1] as u64 * 0x100 + b[i + 2] as u64 * 0x1_0000 + b[i + 3] as u64 * 0x100_0000
        + b[i + 4] as u64 * 0x1_0000_0000 + b[i + 5] as u64 * 0x100_0000_0000 + b[i + 6] as u64
        * 0x1_0000_0000_0000 + b[i + 7] as u64 * 0x100_0000_0000_0000
}

/// Reads a wide cell record (see [`spec_cell_record`]).
pub fn decode_cell_record(rec: &[u8]) -> (r: CellRecord)
    ensures
        r@ == spec_cell_record(rec@),
{
    if rec.len() < 12 || rec[0] != WIDE_CELL_VERSION {
        return CellRecord::Empty;
    }
    let t = rec[1];
    let double = if rec.len() >= 20 {
        Some(read_le_u64(rec, 12))
    } else {
        None
    };
    if t == 2 || t == 10 {
        if read_le_u32(rec, 8) % 2 == 1 {
            if rec.len() >= 28 {
                let mut v: Vec<u8> = Vec::new();
                let mut i: usize = 12;
                while i < 28
                    invariant
                        12 <= i <= 28,
                        rec@.len() >= 28,
                        v@ == rec@.subrange(12, i as int),
                    decreases 28 - i,
                {
                    v.push(rec[i]);
                    i = i + 1;
                    assert(v@ =~= rec@.subrange(12, i as int));
                }
                CellRecord::Decimal(v)
            } else {
                CellRecord::Empty
            }
        } else {
            match double {
                Some(x) => CellRecord::Number(x),
                None => CellRecord::Empty,
            }
        }
    } else if t == 6 {
        match double {
            Some(x) => CellRecord::Bool(x % 0x8000_0000_0000_0000 != 0),
            None => CellRecord::Empty,
        }
    } else if t == 5 {
        match double {
            Some(x) => CellRecord::Date(x),
            None => CellRecord::Empty,
        }
    } else if t == 7 {
        match double {
            Some(x) => CellRecord::Duration(x),
            None => CellRecord::Empty,
        }
    } else if t == 8 {
        CellRecord::Error
    } else if t == 3 {
        if rec.len() >= 16 {
            CellRecord::Text(read_le_u32(rec, 12))
        } else {
            CellRecord::Empty
        }
    } else {
        CellRecord::Empty
    }
}

/// The bytes of the value a record's flags select: 16 for a decimal128
/// (bit `0x1`), 8 for a double (`0x2`) or a date (`0x4`), 4 for a string
/// key (`0x8`), none otherwise.
pub open spec fn value_size(flags: u32) -> nat {
    if flags % 2 == 1 {
        16
    } else if (flags / 2) % 2 == 1 {
        8
    } else if (flags / 4) % 2 == 1 {
        8
    } else if (flags / 8) % 2 == 1 {
        4
    } else {
        0
    }
}

/// The formula id of a cached formula-result cell: the little-endian `u32`
/// just after the value, in a version-5 record whose flag bit `0x0200` is
/// set; `None` for any other record or where those four bytes are missing.
pub open spec fn spec_formula_id(rec: Seq<u8>) -> Option<u32> {
    if rec.len() < 12 || rec[0] != WIDE_CELL_VERSION {
        None
    } else {
        let flags = le_u32_at(rec, 8);
        let at = 12 + value_size(flags);
        if (flags / 0x200) % 2 == 1 && at + 4 <= rec.len() {
            Some(le_u32_at(rec, at as int))
        } else {
            None
        }
    }
}

/// The formula id a cell record carries (see [`spec_formula_id`]).
pub fn cell_formula_id(rec: &[u8]) -> (r: Option<u32>)
    ensures
        r == spec_formula_id(rec@),
{
    if rec.len() < 12 || rec[0] != WIDE_CELL_VERSION {
        return None;
    }
    let flags = read_le_u32(rec, 8);
    let size: usize = if flags % 2 == 1 {
        16
    } else if (flags / 2) % 2 == 1 {
        8
    } else if (flags / 4) % 2 == 1 {
        8
    } else if (flags / 8) % 2 == 1 {
        4
    } else {
        0
    };
    let at = 12 + size;
    if (flags / 0x200) % 2 == 1 && at + 4 <= rec.len() {
        Some(read_le_u32(rec, at))
    } else {
        None
    }
}

} // verus!
