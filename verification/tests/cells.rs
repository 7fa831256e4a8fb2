use iwork::numbers::cell::{decode_cell_record, CellRecord};

fn record(cell_type: u8, flags: u32, value: &[u8]) -> Vec<u8> {
    let mut rec = vec![5u8, cell_type, 0, 0, 0, 0, 0, 0];
    rec.extend_from_slice(&flags.to_le_bytes());
    rec.extend_from_slice(value);
    rec
}

#[test]
fn number_cells_keep_the_bits_of_their_double() {
    let rec = record(2, 0, &2.5f64.to_le_bytes());
    assert_eq!(decode_cell_record(&rec), CellRecord::Number(2.5f64.to_bits()));
    let alt = record(10, 0, &(-1.0f64).to_le_bytes());
    assert_eq!(decode_cell_record(&alt), CellRecord::Number((-1.0f64).to_bits()));
}

#[test]
fn decimal_number_cells_keep_their_sixteen_bytes() {
    let bytes: Vec<u8> = (1..=16).collect();
    assert_eq!(decode_cell_record(&record(2, 1, &bytes)), CellRecord::Decimal(bytes.clone()));
    assert_eq!(decode_cell_record(&record(2, 1, &bytes[..8])), CellRecord::Empty);
}

#[test]
fn checkbox_cells_are_true_unless_zero() {
    assert_eq!(decode_cell_record(&record(6, 0, &1.0f64.to_le_bytes())), CellRecord::Bool(true));
    assert_eq!(decode_cell_record(&record(6, 0, &0.0f64.to_le_bytes())), CellRecord::Bool(false));
    assert_eq!(decode_cell_record(&record(6, 0, &(-0.0f64).to_le_bytes())), CellRecord::Bool(false));
}

#[test]
fn dates_durations_errors_and_text_are_told_apart() {
    let secs = 86400.0f64;
    assert_eq!(decode_cell_record(&record(5, 0, &secs.to_le_bytes())), CellRecord::Date(secs.to_bits()));
    assert_eq!(decode_cell_record(&record(7, 0, &secs.to_le_bytes())), CellRecord::Duration(secs.to_bits()));
    assert_eq!(decode_cell_record(&record(8, 0, &[])), CellRecord::Error);
    assert_eq!(decode_cell_record(&record(3, 0, &7u32.to_le_bytes())), CellRecord::Text(7));
}

#[test]
fn short_unknown_or_foreign_records_hold_nothing() {
    assert_eq!(decode_cell_record(&[5, 2, 0]), CellRecord::Empty);
    let mut other = record(2, 0, &1.0f64.to_le_bytes());
    other[0] = 4;
    assert_eq!(decode_cell_record(&other), CellRecord::Empty);
    assert_eq!(decode_cell_record(&record(9, 0, &1.0f64.to_le_bytes())), CellRecord::Empty);
    assert_eq!(decode_cell_record(&record(5, 0, &[0, 0, 0])), CellRecord::Empty);
}
