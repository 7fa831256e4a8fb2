use iwork::numbers::rows::{ResolvedCell, ResolvedRow};
use iwork::iwa::IwaObject;
use iwork::numbers::TableModel;
use iwork::iwa::{IwaArchive, IwaPacket};
use iwork::numbers::datalist::decode_string_datalist;
use iwork::numbers::tile::{decode_raw_rows, tile_rows};
use iwork::numbers::{self, message_type_name, Spreadsheet};
use iwork::package::PackageWriter;
use iwork::protobuf::{push_varint, ProtoField, ProtoMessage};
use iwork::Error;

#[test]
fn names_known_archive_types() {
    assert_eq!(message_type_name(6002), Some("Tile"));
    assert_eq!(message_type_name(6005), Some("DataList"));
    assert_eq!(message_type_name(1), Some("Document"));
    assert_eq!(message_type_name(4008), Some("FormulaRecord"));
    assert_eq!(message_type_name(4009), Some("FormulaAuxiliaryRecord"));
}

#[test]
fn names_table_chain_types() {
    assert_eq!(message_type_name(2), Some("Sheet"));
    assert_eq!(message_type_name(6000), Some("TableInfo"));
    assert_eq!(message_type_name(6001), Some("TableModel"));
}

#[test]
fn returns_none_for_unknown_types() {
    assert_eq!(message_type_name(0), None);
    assert_eq!(message_type_name(999_999), None);
}

// ───────────── a synthetic Numbers package ─────────────

const DOC_ROOT: u64 = 100_000;
const SHEET: u64 = 100_001;
const TABLE_INFO: u64 = 100_002;
const DRAWABLE: u64 = 100_003;
const CLUSTER: u64 = 100_004;
const MODEL: u64 = 100_005;
const TILE: u64 = 100_006;
const DATA_LIST: u64 = 100_007;
const FORMULA_A: u64 = 100_008;
const FORMULA_B: u64 = 100_009;
const BUCKET: u64 = 100_010;
const OTHER_MODEL: u64 = 100_011;

fn msg(fields: Vec<ProtoField>) -> ProtoMessage {
    ProtoMessage::new(fields)
}

fn bytes(fields: Vec<ProtoField>) -> Vec<u8> {
    msg(fields).encode().unwrap()
}

fn reference(id: u64) -> ProtoMessage {
    msg(vec![ProtoField::varint(1, id)])
}

fn info(id: u64, kind: u64, len: usize) -> Vec<u8> {
    let message_info = msg(vec![ProtoField::varint(1, kind), ProtoField::varint(3, len as u64)]);
    bytes(vec![ProtoField::varint(1, id), ProtoField::message(2, &message_info).unwrap()])
}

/// An archive of several `(id, type, payload)` objects.
fn archive(objects: &[(u64, u64, Vec<u8>)]) -> Vec<u8> {
    let (id0, kind0, payload0) = &objects[0];
    let header = IwaPacket::new(info(*id0, *kind0, payload0.len()));
    let mut body = payload0.clone();
    for (id, kind, payload) in &objects[1..] {
        let record = info(*id, *kind, payload.len());
        push_varint(&mut body, record.len() as u64);
        body.extend_from_slice(&record);
        body.extend_from_slice(payload);
    }
    IwaArchive::encode(header, body).unwrap()
}

fn sheet_payload() -> Vec<u8> {
    bytes(vec![
        ProtoField::string(1, "Sheet 1"),
        ProtoField::message(2, &reference(TABLE_INFO)).unwrap(),
        ProtoField::message(2, &reference(DRAWABLE)).unwrap(),
    ])
}

fn drawable_payload() -> Vec<u8> {
    bytes(vec![
        ProtoField::bytes(1, bytes(vec![ProtoField::varint(2, 7)])),
        ProtoField::bytes(10_000, bytes(vec![ProtoField::varint(1, CLUSTER)])),
    ])
}

fn model_payload(name: &str, rows: u64, columns: u64) -> Vec<u8> {
    let tile_entry = msg(vec![ProtoField::varint(1, 0), ProtoField::message(2, &reference(TILE)).unwrap()]);
    let tile_storage = msg(vec![ProtoField::message(1, &tile_entry).unwrap(), ProtoField::varint(2, 256)]);
    let data_store = msg(vec![
        ProtoField::message(3, &tile_storage).unwrap(),
        ProtoField::message(4, &reference(DATA_LIST)).unwrap(),
    ]);
    bytes(vec![
        ProtoField::string(1, "uuid-1"),
        ProtoField::message(4, &data_store).unwrap(),
        ProtoField::varint(6, rows),
        ProtoField::varint(7, columns),
        ProtoField::string(8, name),
        ProtoField::varint(9, 1),
        ProtoField::varint(10, 0),
    ])
}

fn bucket_payload() -> Vec<u8> {
    let entry = msg(vec![
        ProtoField::varint(1, 0),
        ProtoField::fixed32(2, 5),
        ProtoField::varint(3, 1),
        ProtoField::varint(4, 2),
    ]);
    let incomplete = msg(vec![ProtoField::varint(1, 9)]);
    bytes(vec![ProtoField::message(2, &entry).unwrap(), ProtoField::message(2, &incomplete).unwrap()])
}

fn numbers_package() -> Vec<u8> {
    numbers_package_with(archive(&[(TILE, 6002, Vec::new())]), archive(&[(DATA_LIST, 6005, Vec::new())]))
}

fn numbers_package_with(tile: Vec<u8>, data_list: Vec<u8>) -> Vec<u8> {
    let document = archive(&[
        (DOC_ROOT, 1, Vec::new()),
        (SHEET, 2, sheet_payload()),
        (TABLE_INFO, 6000, bytes(vec![ProtoField::message(2, &reference(MODEL)).unwrap()])),
        (DRAWABLE, 5021, drawable_payload()),
        (CLUSTER, 5025, Vec::new()),
    ]);
    let calculation = archive(&[
        (100_020, 4000, Vec::new()),
        (MODEL, 6001, model_payload("Table 1", 5, 3)),
        (FORMULA_A, 4008, bytes(vec![ProtoField::varint(2, 7), ProtoField::varint(3, 2)])),
        (FORMULA_B, 4008, bytes(vec![ProtoField::varint(2, 3)])),
        (OTHER_MODEL, 6001, model_payload("Unlisted", 2, 2)),
    ]);
    let mut w = PackageWriter::new();
    w.add_entry("Index/Document.iwa", document);
    w.add_entry("Index/DocumentMetadata.iwa", archive(&[(100_030, 11011, Vec::new())]));
    w.add_entry("Index/Metadata.iwa", archive(&[(100_031, 11006, Vec::new())]));
    w.add_entry("Index/DocumentStylesheet.iwa", archive(&[(100_032, 401, Vec::new())]));
    w.add_entry("Index/CalculationEngine.iwa", calculation);
    w.add_entry("Index/Tables/Tile.iwa", tile);
    w.add_entry("Index/Tables/HeaderStorageBucket.iwa", archive(&[(BUCKET, 6006, bucket_payload())]));
    w.add_entry("Index/Tables/DataList.iwa", data_list);
    w.finish().unwrap()
}

fn spreadsheet() -> Spreadsheet {
    numbers::Document::from_bytes(numbers_package()).unwrap().spreadsheet().unwrap()
}

#[test]
fn table_archives_are_sorted_by_path() {
    let s = spreadsheet();
    let paths: Vec<&str> = s.table_archives().iter().map(|a| a.path()).collect();
    assert_eq!(
        paths,
        vec!["Index/Tables/DataList.iwa", "Index/Tables/HeaderStorageBucket.iwa", "Index/Tables/Tile.iwa"]
    );
    assert_eq!(s.table_archives()[2].archive().descriptor().root_object_id, Some(TILE));
}

#[test]
fn table_models_expose_names_geometry_and_tiles() {
    let s = spreadsheet();
    let models = s.table_models();
    assert_eq!(models.len(), 2);
    assert_eq!(models[0].id(), MODEL);
    assert_eq!(models[0].name(), Some("Table 1"));
    assert_eq!(models[0].uuid(), Some("uuid-1"));
    assert_eq!((models[0].row_count(), models[0].column_count()), (5, 3));
    assert_eq!((models[0].header_row_count(), models[0].header_column_count()), (1, 0));
    assert_eq!(models[0].tile_ids(), &[TILE]);
    assert_eq!(models[0].string_data_list_id(), Some(DATA_LIST));
    assert_eq!(models[1].name(), Some("Unlisted"));
    assert_eq!(s.table_model(OTHER_MODEL).map(|m| m.row_count()), Some(2));
    assert!(s.table_model(SHEET).is_none());
}

#[test]
fn sheets_resolve_their_tables_through_wrappers() {
    let s = spreadsheet();
    let sheets = s.sheets();
    assert_eq!(sheets.len(), 1);
    let sheet = &sheets[0];
    assert_eq!(sheet.id(), SHEET);
    assert_eq!(sheet.name(), Some("Sheet 1"));
    assert_eq!(sheet.object_reference_ids(), &[TABLE_INFO, DRAWABLE]);
    assert_eq!(sheet.table_info_ids(), &[TABLE_INFO]);
    assert_eq!(sheet.table_model_ids(), &[MODEL]);
    assert_eq!(sheet.non_table_object_reference_ids(), vec![DRAWABLE]);
    let models = s.table_models_for_sheet(sheet);
    assert_eq!(models.iter().map(|m| m.id()).collect::<Vec<_>>(), vec![MODEL]);
    assert_eq!(s.sheet_for_table_model(MODEL).map(|x| x.id()), Some(SHEET));
    assert!(s.sheet_for_table_model(OTHER_MODEL).is_none());
}

#[test]
fn formula_records_are_sorted_by_formula_id() {
    let s = spreadsheet();
    let records = s.formula_records();
    let ids: Vec<(u64, u32, u64)> =
        records.iter().map(|r| (r.object_id(), r.formula_id(), r.formula_kind())).collect();
    assert_eq!(ids, vec![(FORMULA_B, 3, 0), (FORMULA_A, 7, 2)]);
    assert_eq!(s.formula_record(7).map(|r| r.object_id()), Some(FORMULA_A));
    assert!(s.formula_record(4).is_none());
}

#[test]
fn drawables_and_their_cluster_objects_are_found() {
    let s = spreadsheet();
    let drawables = s.sheet_drawables();
    assert_eq!(drawables.len(), 1);
    assert_eq!(drawables[0].object_id(), DRAWABLE);
    assert_eq!(drawables[0].info_message().unwrap().field(2).and_then(|f| f.value.as_varint()), Some(7));
    assert_eq!(drawables[0].payload_message().unwrap().field(1).and_then(|f| f.value.as_varint()), Some(CLUSTER));
    let sheet = &s.sheets()[0];
    assert_eq!(s.drawables_for_sheet(sheet).len(), 1);
    assert_eq!(s.sheet_for_drawable(DRAWABLE).map(|x| x.id()), Some(SHEET));
    assert!(s.sheet_drawable(SHEET).is_none());
    assert_eq!(s.object_references(DRAWABLE), vec![CLUSTER]);
    let cluster = s.sheet_drawable_objects(DRAWABLE);
    assert_eq!(cluster.len(), 1);
    assert_eq!(cluster[0].identifier, Some(CLUSTER));
    let infos = s.sheet_drawable_object_info(DRAWABLE);
    assert_eq!(infos.len(), 1);
    assert_eq!(infos[0].archive_path(), "Index/Document.iwa");
    assert_eq!(infos[0].message_type(), 5025);
    assert_eq!(infos[0].message_type_name(), None);
    let counts = s.sheet_drawable_cluster_type_counts(DRAWABLE);
    assert_eq!(counts.get(&5025), Some(&1));
    assert_eq!(counts.len(), 1);
}

#[test]
fn object_graph_queries_find_objects_across_archives() {
    let s = spreadsheet();
    assert_eq!(s.object_message_type(MODEL), Some(6001));
    assert_eq!(s.object_message_type_name(TABLE_INFO), Some("TableInfo"));
    assert_eq!(s.object_archive_path(MODEL), Some("Index/CalculationEngine.iwa"));
    assert_eq!(s.object_archive_path(TILE), Some("Index/Tables/Tile.iwa"));
    assert!(s.object_by_id(999).is_none());
    let info = s.object_info(SHEET).unwrap();
    assert_eq!((info.object_id(), info.message_type(), info.message_type_name()), (SHEET, 2, Some("Sheet")));
    assert_eq!(s.object_references(TABLE_INFO), vec![MODEL]);
    let refs = s.object_reference_info(SHEET);
    assert_eq!(refs.iter().map(|i| i.object_id()).collect::<Vec<_>>(), vec![TABLE_INFO, DRAWABLE]);
    let counts = s.object_reference_type_counts(SHEET);
    assert_eq!(counts.get(&6000), Some(&1));
    assert_eq!(counts.get(&5021), Some(&1));
    assert_eq!(s.object_message(SHEET).unwrap().field(1).and_then(|f| f.value.as_bytes()), Some(&b"Sheet 1"[..]));
}

#[test]
fn header_storage_bucket_keeps_complete_entries() {
    let s = spreadsheet();
    let bucket = s.header_storage_bucket(BUCKET).unwrap();
    assert_eq!(bucket.id(), BUCKET);
    assert_eq!(bucket.entries().len(), 1);
    let e = &bucket.entries()[0];
    assert_eq!((e.index(), e.fixed32_bits(), e.field3(), e.field4()), (0, 5, 1, 2));
    assert!(s.header_storage_bucket(TILE).is_none());
}

#[test]
fn a_package_without_core_archives_is_not_a_spreadsheet() -> Result<(), Error> {
    let mut w = PackageWriter::new();
    w.add_entry("Index/Document.iwa", archive(&[(1, 1, Vec::new())]));
    let doc = numbers::Document::from_bytes(w.finish()?)?;
    assert!(matches!(doc.spreadsheet(), Err(Error::MissingEntry(p)) if p == "Index/DocumentMetadata.iwa"));
    Ok(())
}

#[test]
fn string_lists_map_keys_to_their_last_text() {
    let entry = |key: u64, text: &str| msg(vec![ProtoField::varint(1, key), ProtoField::string(3, text)]);
    let body = bytes(vec![
        ProtoField::message(1, &reference(7)).unwrap(),
        ProtoField::message(2, &entry(5, "five")).unwrap(),
        ProtoField::varint(4, 300),
        ProtoField::message(2, &entry(6, "six")).unwrap(),
        ProtoField::message(2, &msg(vec![ProtoField::varint(1, 9)])).unwrap(),
        ProtoField::fixed32(5, 1),
        ProtoField::message(2, &entry(5, "FIVE")).unwrap(),
        ProtoField::message(2, &entry(1 << 40, "too large")).unwrap(),
    ]);
    let header = IwaPacket::new(info(DATA_LIST, 6005, body.len()));
    let archive = IwaArchive::decode(&IwaArchive::encode(header, body).unwrap()).unwrap();
    let map = decode_string_datalist(&archive);
    assert_eq!(map.len(), 2);
    assert_eq!(map.get(&5).map(String::as_str), Some("FIVE"));
    assert_eq!(map.get(&6).map(String::as_str), Some("six"));
}

#[test]
fn tile_rows_keep_cell_records_up_to_the_last_filled_column() {
    let storage: Vec<u8> = (0u8..48).collect();
    let offsets = |slots: &[u16]| slots.iter().flat_map(|s| s.to_le_bytes()).collect::<Vec<u8>>();
    let row = |index: u64, slots: &[u16]| {
        msg(vec![
            ProtoField::varint(1, index),
            ProtoField::bytes(6, storage.clone()),
            ProtoField::bytes(7, offsets(slots)),
        ])
    };
    let body = bytes(vec![
        ProtoField::message(1, &reference(7)).unwrap(),
        ProtoField::message(2, &row(0, &[0, 20, 0xffff, 40, 0xffff])).unwrap(),
        ProtoField::message(2, &msg(vec![])).unwrap(),
        ProtoField::message(2, &row(3, &[500, 0xffff])).unwrap(),
    ]);
    let header = IwaPacket::new(info(TILE, 6002, body.len()));
    let archive = IwaArchive::decode(&IwaArchive::encode(header, body).unwrap()).unwrap();
    let rows = decode_raw_rows(&archive);
    assert_eq!(rows.len(), 2);
    assert_eq!(rows[0].index, 0);
    assert_eq!(
        rows[0].cells,
        vec![Some(storage.clone()), Some(storage[20..].to_vec()), None, Some(storage[40..].to_vec())]
    );
    assert_eq!(rows[1].index, 3);
    assert_eq!(rows[1].cells, vec![None]);
}

#[test]
fn tile_messages_list_their_rows_storage_and_offsets() {
    let row = bytes(vec![
        ProtoField::varint(1, 3),
        ProtoField::bytes(6, vec![1, 2, 3]),
        ProtoField::bytes(7, vec![0, 0, 0xff, 0xff, 5]),
    ]);
    let tile = bytes(vec![
        ProtoField::varint(4, 2),
        ProtoField::bytes(5, row),
        ProtoField::varint(5, 9),
        ProtoField::message(5, &msg(vec![ProtoField::bytes(6, vec![7])])).unwrap(),
    ]);
    let archive = IwaArchive::decode(&IwaArchive::encode(IwaPacket::new(info(1, 6002, tile.len())), tile).unwrap()).unwrap();
    let rows = tile_rows(&archive);
    assert_eq!(rows, vec![(3, vec![1, 2, 3], vec![0, 0xffff]), (0, vec![7], vec![])]);
}

#[test]
fn sheet_drawables_are_named() {
    assert_eq!(message_type_name(5021), Some("SheetDrawable"));
}

#[test]
fn header_counts_never_exceed_the_grid() {
    let payload = ProtoMessage::new(vec![
        ProtoField::varint(6, 2),
        ProtoField::varint(7, 3),
        ProtoField::varint(9, 5),
        ProtoField::varint(10, 9),
    ])
    .encode()
    .unwrap();
    let object =
        IwaObject { identifier: Some(7), message_type: Some(6001), version: None, references: Vec::new(), payload };
    let model = TableModel::from_object(&object).unwrap();
    assert_eq!((model.header_row_count(), model.header_column_count()), (2, 3));
}

fn cell(cell_type: u8, value: &[u8]) -> Vec<u8> {
    let mut rec = vec![5u8, cell_type, 0, 0, 0, 0, 0, 0, 0, 0, 0, 0];
    rec.extend_from_slice(value);
    rec
}

fn written_cells_package() -> Vec<u8> {
    let mut storage = cell(2, &2.5f64.to_le_bytes());
    let text_at = storage.len() as u16;
    storage.extend_from_slice(&cell(3, &7u32.to_le_bytes()));
    let missing_at = storage.len() as u16;
    storage.extend_from_slice(&cell(3, &8u32.to_le_bytes()));
    let offsets: Vec<u8> = [0u16, text_at, 0xffff, missing_at].iter().flat_map(|s| s.to_le_bytes()).collect();
    let row = msg(vec![ProtoField::varint(1, 2), ProtoField::bytes(6, storage), ProtoField::bytes(7, offsets)]);
    let tile_body = bytes(vec![ProtoField::message(1, &reference(7)).unwrap(), ProtoField::message(2, &row).unwrap()]);
    let entry = msg(vec![ProtoField::varint(1, 7), ProtoField::string(3, "seven")]);
    let list_body = bytes(vec![ProtoField::message(2, &entry).unwrap()]);
    numbers_package_with(archive(&[(TILE, 6002, tile_body)]), archive(&[(DATA_LIST, 6005, list_body)]))
}

#[test]
fn table_rows_resolve_text_through_the_models_string_list() {
    let s = numbers::Document::from_bytes(written_cells_package()).unwrap().spreadsheet().unwrap();
    let models = s.table_models();
    let model = models.iter().find(|m| m.id() == MODEL).unwrap();
    let rows = s.table_rows(model);
    assert_eq!(
        rows,
        vec![ResolvedRow {
            index: 2,
            cells: vec![
                ResolvedCell::Number(2.5f64.to_bits()),
                ResolvedCell::Text("seven".to_owned()),
                ResolvedCell::Empty,
                ResolvedCell::Empty,
            ],
        }]
    );
    let all = s.tile_tables();
    assert_eq!(all, vec![rows]);
}

fn formula_cell(cell_type: u8, flags: u32, value: &[u8], formula_id: u32) -> Vec<u8> {
    let mut rec = vec![5u8, cell_type, 0, 0, 0, 0, 0, 0];
    rec.extend_from_slice(&flags.to_le_bytes());
    rec.extend_from_slice(value);
    rec.extend_from_slice(&formula_id.to_le_bytes());
    rec
}

#[test]
fn formula_cells_join_their_records_sorted_once() {
    let mut storage = formula_cell(2, 0x202, &1.0f64.to_le_bytes(), 7);
    let b = storage.len() as u16;
    storage.extend_from_slice(&formula_cell(3, 0x208, &5u32.to_le_bytes(), 3));
    let c = storage.len() as u16;
    storage.extend_from_slice(&formula_cell(2, 0x202, &2.0f64.to_le_bytes(), 7));
    let d = storage.len() as u16;
    storage.extend_from_slice(&formula_cell(2, 0x202, &3.0f64.to_le_bytes(), 99));
    let offsets: Vec<u8> = [0u16, b, c, d].iter().flat_map(|s| s.to_le_bytes()).collect();
    let row = msg(vec![ProtoField::varint(1, 0), ProtoField::bytes(6, storage.clone()), ProtoField::bytes(7, offsets)]);
    let tile_body = bytes(vec![ProtoField::message(1, &reference(7)).unwrap(), ProtoField::message(2, &row).unwrap()]);
    let package = numbers_package_with(archive(&[(TILE, 6002, tile_body)]), archive(&[(DATA_LIST, 6005, Vec::new())]));
    let s = numbers::Document::from_bytes(package).unwrap().spreadsheet().unwrap();
    let models = s.table_models();
    let model = models.iter().find(|m| m.id() == MODEL).unwrap();
    let ids: Vec<u32> = s.formula_records_for_model(model).iter().map(|r| r.formula_id()).collect();
    assert_eq!(ids, vec![3, 7]);
    let sheet = &s.sheets()[0];
    let sheet_ids: Vec<u32> = s.formula_records_for_sheet(sheet).iter().map(|r| r.formula_id()).collect();
    assert_eq!(sheet_ids, vec![3, 7]);
    assert_eq!(s.formula_record_for_cell(&storage[..24]).map(|r| r.formula_id()), Some(7));
    assert_eq!(s.formula_record_for_cell(&formula_cell(2, 0x2, &1.0f64.to_le_bytes(), 7)), None);
}

#[test]
fn numbers_table_models_expose_names_and_geometry() -> Result<(), Error> {
    let calculation = archive(&[
        (100_020, 4000, Vec::new()),
        (200_001, 6001, model_payload("Overview", 3, 3)),
        (200_002, 6001, model_payload("My Portfolio", 5, 13)),
        (200_003, 6001, model_payload("30-Day History Table", 32, 3)),
    ]);
    let mut w = PackageWriter::new();
    w.add_entry("Index/Document.iwa", archive(&[(DOC_ROOT, 1, Vec::new())]));
    w.add_entry("Index/DocumentMetadata.iwa", archive(&[(100_030, 11011, Vec::new())]));
    w.add_entry("Index/Metadata.iwa", archive(&[(100_031, 11006, Vec::new())]));
    w.add_entry("Index/DocumentStylesheet.iwa", archive(&[(100_032, 401, Vec::new())]));
    w.add_entry("Index/CalculationEngine.iwa", calculation);
    let models = numbers::Document::from_bytes(w.finish()?)?.spreadsheet()?.table_models();
    let mut named: Vec<(String, u32, u32)> = models
        .iter()
        .filter_map(|model| model.name().map(|name| (name.to_owned(), model.row_count(), model.column_count())))
        .collect();
    named.sort();
    assert_eq!(
        named,
        vec![
            ("30-Day History Table".to_owned(), 32, 3),
            ("My Portfolio".to_owned(), 5, 13),
            ("Overview".to_owned(), 3, 3),
        ]
    );
    Ok(())
}
