use iwork::iwa::IwaArchive;
use iwork::numbers;
use iwork::numbers::datalist::decode_string_datalist;
use iwork::numbers::rows::ResolvedCell;
use iwork::numbers::write::{WritableCell, WritableTable, Workbook};
use iwork::protobuf::ProtoMessage;
use iwork::{DocumentKind, Error, PackageSupport};

fn text(s: &str) -> WritableCell {
    WritableCell::Text(s.to_owned())
}

fn sample_workbook() -> Workbook {
    let mut workbook = Workbook::new();
    let mut table = WritableTable::new("Budget");
    table.push_row(vec![text("Category"), text("Amount"), text("When")]);
    table.push_row(vec![
        text("Utilities"),
        WritableCell::Number(42.5f64.to_bits()),
        WritableCell::Date(625_881_600.0f64.to_bits()),
    ]);
    workbook.add_table(table);
    workbook
}

#[test]
fn encoded_archives_round_trip_scalar_cells() -> Result<(), Error> {
    let mut workbook = Workbook::new();
    let mut table = WritableTable::new("Budget");
    table.push_row(vec![text("Category"), text("Amount"), text("When")]);
    table.push_row(vec![
        text("Utilities"),
        WritableCell::Number(42.5f64.to_bits()),
        WritableCell::Date(625_881_600.0f64.to_bits()),
    ]);
    table.push_row(vec![text("Formula"), WritableCell::Number(7.0f64.to_bits()), text("cached")]);
    workbook.add_table(table);

    let archives = workbook.encode_table_archives()?;
    assert_eq!(archives.len(), 1);
    assert_eq!(archives[0].name, "Budget");
    assert_eq!(archives[0].tile_path, "Index/Tables/Tile-1-1.iwa");
    assert_eq!(archives[0].datalist_path, "Index/Tables/DataList-1-1.iwa");

    let datalist_archive = IwaArchive::decode(&archives[0].datalist)?;
    let strings = decode_string_datalist(&datalist_archive);
    assert_eq!(strings.get(&1).map(String::as_str), Some("Category"));
    assert!(strings.values().any(|value| value == "Utilities"));
    assert_eq!(strings.len(), 6);

    let tile_archive = IwaArchive::decode(&archives[0].tile)?;
    let tile_body = ProtoMessage::decode(tile_archive.body())?;
    let first_row = tile_body
        .field(5)
        .and_then(|field| field.value.as_message().ok())
        .flatten()
        .ok_or(Error::InvalidIwa("missing generated row message"))?;
    assert!(first_row.field(3).and_then(|f| f.value.as_bytes()).is_some());
    assert_eq!(
        first_row.field(4).and_then(|f| f.value.as_bytes()),
        first_row.field(7).and_then(|f| f.value.as_bytes())
    );
    Ok(())
}

#[test]
fn workbook_serializes_to_readable_numbers_package() -> Result<(), Error> {
    let workbook = sample_workbook();
    let bytes = workbook.to_numbers_bytes()?;
    let document = numbers::Document::from_bytes(bytes)?;
    let report = document.inspect("generated.numbers".to_owned())?;

    assert_eq!(report.kind, DocumentKind::Numbers);
    assert_eq!(report.support, PackageSupport::SupportedDirectIndexEntries);
    assert_eq!(report.properties.document_uuid.as_deref(), Some("iwork-rs-generated-document"));
    let entries = document.package().entries();
    assert!(entries.iter().any(|entry| entry.path == "Index/ObjectContainer.iwa"));
    assert!(entries.iter().any(|entry| entry.path == "Index/CalculationEngine.iwa"));
    assert!(entries.iter().any(|entry| entry.path == "Index/ViewState.iwa"));

    let spreadsheet = document.spreadsheet()?;
    let tables = spreadsheet.tile_tables();
    assert_eq!(tables.len(), 1);
    assert_eq!(
        tables[0][1].cells,
        vec![
            ResolvedCell::Text("Utilities".to_owned()),
            ResolvedCell::Number(42.5f64.to_bits()),
            ResolvedCell::Date(625_881_600.0f64.to_bits()),
        ]
    );
    Ok(())
}

#[test]
fn every_written_cell_kind_reads_back() -> Result<(), Error> {
    let mut workbook = Workbook::new();
    let mut table = WritableTable::new("Kinds");
    table.push_row(vec![
        WritableCell::Bool(true),
        WritableCell::Bool(false),
        WritableCell::Duration(90.0f64.to_bits()),
        WritableCell::Error,
        WritableCell::Empty,
        text("x"),
    ]);
    table.push_row(vec![text("x")]);
    workbook.add_table(table);
    let document = numbers::Document::from_bytes(workbook.to_numbers_bytes()?)?;
    let tables = document.spreadsheet()?.tile_tables();
    assert_eq!(tables.len(), 1);
    assert_eq!(
        tables[0][0].cells,
        vec![
            ResolvedCell::Bool(true),
            ResolvedCell::Bool(false),
            ResolvedCell::Duration(90.0f64.to_bits()),
            ResolvedCell::Error,
            ResolvedCell::Empty,
            ResolvedCell::Text("x".to_owned()),
        ]
    );
    assert_eq!(tables[0][1].cells[0], ResolvedCell::Text("x".to_owned()));
    Ok(())
}

#[test]
fn string_lists_are_sorted_with_first_appearance_keys() -> Result<(), Error> {
    let mut workbook = Workbook::new();
    let mut table = WritableTable::new("T");
    table.push_row(vec![text("pear"), text("apple"), text("pear")]);
    workbook.add_table(table);
    let archives = workbook.encode_table_archives()?;
    let list = IwaArchive::decode(&archives[0].datalist)?;
    let body = ProtoMessage::decode(list.body())?;
    assert_eq!(body.field(2).and_then(|f| f.value.as_varint()), Some(3));
    let entries: Vec<ProtoMessage> = body
        .fields_by_number(3)
        .iter()
        .map(|f| f.value.as_message().unwrap().unwrap())
        .collect();
    assert_eq!(entries.len(), 2);
    assert_eq!(entries[0].field(1).and_then(|f| f.value.as_varint()), Some(2));
    assert_eq!(entries[1].field(1).and_then(|f| f.value.as_varint()), Some(1));
    let strings = decode_string_datalist(&list);
    assert_eq!(strings.get(&1).map(String::as_str), Some("pear"));
    assert_eq!(strings.get(&2).map(String::as_str), Some("apple"));
    Ok(())
}

#[test]
fn second_tables_are_numbered_and_written_after_the_first() -> Result<(), Error> {
    let mut workbook = sample_workbook();
    let mut t2 = WritableTable::new("Second");
    t2.push_row(vec![WritableCell::Number(1.0f64.to_bits())]);
    workbook.add_table(t2);
    assert_eq!(workbook.tables().len(), 2);
    assert_eq!(workbook.tables()[1].name(), "Second");
    let archives = workbook.encode_table_archives()?;
    assert_eq!(archives[1].tile_path, "Index/Tables/Tile-2-1.iwa");
    let document = numbers::Document::from_bytes(workbook.to_numbers_bytes()?)?;
    let paths: Vec<String> = document.package().entries().iter().map(|e| e.path.clone()).collect();
    assert_eq!(paths.len(), 15);
    assert_eq!(paths[11], "Index/Tables/DataList-1-1.iwa");
    assert_eq!(paths[12], "Index/Tables/Tile-1-1.iwa");
    assert_eq!(paths[14], "Index/Tables/Tile-2-1.iwa");
    Ok(())
}

#[test]
fn an_empty_workbook_writes_only_the_core_members() -> Result<(), Error> {
    let document = numbers::Document::from_bytes(Workbook::new().to_numbers_bytes()?)?;
    assert_eq!(document.package().entries().len(), 11);
    Ok(())
}

#[test]
fn a_written_table_reads_back_row_by_row_up_to_its_last_filled_cell() -> Result<(), Error> {
    let mut workbook = Workbook::new();
    let mut table = WritableTable::new("Trim");
    table.push_row(vec![text("a"), WritableCell::Empty, WritableCell::Empty]);
    table.push_row(vec![WritableCell::Empty, WritableCell::Number(3.0f64.to_bits())]);
    table.push_row(vec![]);
    workbook.add_table(table);
    let document = numbers::Document::from_bytes(workbook.to_numbers_bytes()?)?;
    let tables = document.spreadsheet()?.tile_tables();
    assert_eq!(tables.len(), 1);
    assert_eq!(tables[0].len(), 3);
    assert_eq!(tables[0][0].index, 0);
    assert_eq!(tables[0][0].cells, vec![ResolvedCell::Text("a".to_owned())]);
    assert_eq!(tables[0][1].index, 1);
    assert_eq!(tables[0][1].cells, vec![ResolvedCell::Empty, ResolvedCell::Number(3.0f64.to_bits())]);
    assert_eq!(tables[0][2].cells, Vec::<ResolvedCell>::new());
    Ok(())
}
