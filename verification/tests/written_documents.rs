use iwork::iwa::IwaArchive;
use iwork::keynote::{self, Presentation, Slide};
use iwork::numbers::write::{WritableCell, WritableTable, Workbook};
use iwork::pages::{self, Body};
use iwork::{numbers, Document, DocumentKind, Error, Package, PackageSupport};

fn numbers_bytes() -> Vec<u8> {
    let mut workbook = Workbook::new();
    let mut table = WritableTable::new("Budget");
    table.push_row(vec![WritableCell::Text("Category".to_owned()), WritableCell::Text("Amount".to_owned())]);
    table.push_row(vec![WritableCell::Text("Rent".to_owned()), WritableCell::Number(1200.0f64.to_bits())]);
    workbook.add_table(table);
    workbook.to_numbers_bytes().unwrap()
}

fn pages_bytes() -> Vec<u8> {
    let mut body = Body::default();
    body.set_template_name(Some("11B_Novel_Modern".to_owned()));
    body.set_text_fragments(vec!["Chapter One".to_owned(), "It was a dark night.".to_owned()]);
    body.to_pages_bytes().unwrap()
}

fn keynote_bytes(theme: &str) -> Vec<u8> {
    let mut p = Presentation::default();
    p.set_theme_name(Some(theme.to_owned()));
    p.add_slide(Slide::new_real("Welcome", vec!["Welcome".to_owned(), "Agenda".to_owned()]));
    p.add_slide(Slide::new_real("Thanks", vec!["Thanks".to_owned()]));
    p.to_keynote_bytes().unwrap()
}

fn all_documents() -> Vec<(&'static str, Vec<u8>)> {
    vec![
        ("written/personal_budget.numbers", numbers_bytes()),
        ("written/modern_novel.pages", pages_bytes()),
        ("written/basic_white.key", keynote_bytes("21_BasicWhite")),
    ]
}

#[test]
fn parse_properties_plist_uses_fixture_packages() {
    for (path, bytes) in all_documents() {
        let package = Package::from_bytes(bytes).unwrap();
        let props = package.properties().unwrap();
        assert!(props.document_uuid.is_some(), "{path}: expected document_uuid");
    }
}

#[test]
fn parses_a_fixture_archive() -> Result<(), Error> {
    let package = Package::from_bytes(numbers_bytes())?;
    let properties = package.properties()?;
    assert_eq!(package.support(), PackageSupport::SupportedDirectIndexEntries);
    assert_eq!(properties.file_format_version.as_deref(), Some("14.4.1"));
    assert_eq!(properties.is_multi_page, Some(false));
    assert!(package.entries().iter().any(|entry| entry.path == "Index/DocumentStylesheet.iwa"));
    Ok(())
}

#[test]
fn iwa_encoder_reproduces_every_fixture_archive() -> Result<(), Error> {
    let package = Package::from_bytes(numbers_bytes())?;
    let mut checked = 0;
    for entry in package.entries() {
        if !entry.path.ends_with(".iwa") {
            continue;
        }
        let original = IwaArchive::decode(&package.entry_bytes(&entry.path)?)?;
        let reencoded = IwaArchive::decode(&original.reencode()?)?;
        assert_eq!(reencoded.header().bytes(), original.header().bytes(), "header packet differs for {}", entry.path);
        assert_eq!(reencoded.body(), original.body(), "body differs for {}", entry.path);
        checked += 1;
    }
    assert!(checked > 0, "expected at least one .iwa archive");
    Ok(())
}

#[test]
fn app_specific_entry_points_share_the_core_package_reader() -> Result<(), Error> {
    let iwork_doc = Document::from_bytes(numbers_bytes())?;
    let numbers_doc = numbers::Document::from_bytes(numbers_bytes())?;
    let pages_doc = pages::Document::from_bytes(pages_bytes())?;
    let keynote_doc = keynote::Document::from_bytes(keynote_bytes("21_BasicWhite"))?;
    assert_eq!(iwork_doc.inspect("budget.numbers".to_owned())?.kind, DocumentKind::Numbers);
    assert_eq!(
        iwork_doc.inspect("budget.numbers".to_owned())?.support,
        PackageSupport::SupportedDirectIndexEntries
    );
    assert_eq!(numbers_doc.inspect("budget.numbers".to_owned())?.kind, DocumentKind::Numbers);
    assert_eq!(pages_doc.inspect("novel.pages".to_owned())?.kind, DocumentKind::Pages);
    assert_eq!(keynote_doc.inspect("white.key".to_owned())?.kind, DocumentKind::Keynote);
    Ok(())
}

#[test]
fn iwa_archive_decodes_full_object_stream() -> Result<(), Error> {
    let package = Package::from_bytes(pages_bytes())?;
    let composite = IwaArchive::decode(&package.entry_bytes("Index/Document.iwa")?)?;
    let objects = composite.objects();
    assert!(objects.len() > 1, "composite archive should expose more than its root object");
    let root = &objects[0];
    assert!(root.identifier.is_some());
    assert_eq!(Some(root.payload.len() as u64), composite.descriptor().body_hint);
    assert!(objects.iter().all(|object| object.identifier.is_some()));

    let numbers = Package::from_bytes(numbers_bytes())?;
    let tile = IwaArchive::decode(&numbers.entry_bytes("Index/Tables/Tile-1-1.iwa")?)?;
    let tile_objects = tile.objects();
    assert_eq!(tile_objects.len(), 1);
    assert_eq!(tile_objects[0].message_type, Some(6002));
    assert_eq!(tile_objects[0].payload, tile.body());
    Ok(())
}

#[test]
fn every_example_opens_and_exposes_core_metadata() -> Result<(), Error> {
    for (path, bytes) in all_documents() {
        let package = Document::from_bytes(bytes)?;
        let report = package.inspect(path.to_owned())?;
        assert!(report.entry_count > 0, "{path} should not be empty");
        assert!(report.iwa_count > 0, "{path} should contain iwa payloads");
        assert_eq!(report.support, PackageSupport::SupportedDirectIndexEntries);
        assert!(report.properties.document_uuid.is_some());
        assert!(report.properties.file_format_version.is_some());
    }
    Ok(())
}

#[test]
fn examples_are_classified_by_extension() -> Result<(), Error> {
    let kinds = [DocumentKind::Numbers, DocumentKind::Pages, DocumentKind::Keynote];
    for ((path, bytes), kind) in all_documents().into_iter().zip(kinds) {
        assert_eq!(Document::from_bytes(bytes.clone())?.inspect(path.to_owned())?.kind, kind);
        match kind {
            DocumentKind::Numbers => assert!(numbers::Document::from_bytes(bytes).is_ok()),
            DocumentKind::Pages => assert!(pages::Document::from_bytes(bytes).is_ok()),
            _ => assert!(keynote::Document::from_bytes(bytes).is_ok()),
        }
    }
    Ok(())
}

#[test]
fn keynote_exposes_theme_name() -> Result<(), Error> {
    for name in ["21_BasicWhite", "Blueprint", "Parchment"] {
        let presentation = keynote::Document::from_bytes(keynote_bytes(name))?.presentation()?;
        assert_eq!(presentation.theme_name(), Some(name), "expected theme name {name:?}");
    }
    Ok(())
}

#[test]
fn keynote_slide_template_distinction() -> Result<(), Error> {
    let presentation = keynote::Document::from_bytes(keynote_bytes("Blueprint"))?.presentation()?;
    let slides = presentation.slides();
    assert!(slides.iter().any(|s| !s.is_template()));
    assert!(slides.iter().any(|s| s.is_template()));
    for slide in slides {
        assert_eq!(slide.is_template(), slide.path().contains("TemplateSlide"), "{}", slide.path());
    }
    Ok(())
}
