use iwork::inspect::count_keywords;
use iwork::package::{Package, PackageSupport, PackageWriter};
use iwork::{Document, DocumentKind, Error};

const DEFLATED_ZIP_ENTRY: &[u8] = &[
    0x50, 0x4b, 0x03, 0x04, 0x14, 0x00, 0x00, 0x00, 0x08, 0x00, 0x86, 0x90, 0xc8, 0x5c, 0x5a, 0x15,
    0xfa, 0x42, 0x26, 0x00, 0x00, 0x00, 0xf0, 0x0a, 0x00, 0x00, 0x08, 0x00, 0x1c, 0x00, 0x66, 0x69,
    0x6c, 0x65, 0x2e, 0x74, 0x78, 0x74, 0x55, 0x54, 0x09, 0x00, 0x03, 0x5c, 0x3c, 0x27, 0x6a, 0x5c,
    0x3c, 0x27, 0x6a, 0x75, 0x78, 0x0b, 0x00, 0x01, 0x04, 0xf5, 0x01, 0x00, 0x00, 0x04, 0x00, 0x00,
    0x00, 0x00, 0xcb, 0x48, 0xcd, 0xc9, 0xc9, 0x57, 0x48, 0x49, 0x4d, 0xcb, 0x49, 0x2c, 0x49, 0xe5,
    0xca, 0x18, 0xe5, 0x8d, 0xf2, 0x46, 0x79, 0xa3, 0xbc, 0x51, 0xde, 0x28, 0x6f, 0x94, 0x37, 0xca,
    0x1b, 0xe5, 0x8d, 0xf2, 0x86, 0x15, 0x0f, 0x00, 0x50, 0x4b, 0x01, 0x02, 0x1e, 0x03, 0x14, 0x00,
    0x00, 0x00, 0x08, 0x00, 0x86, 0x90, 0xc8, 0x5c, 0x5a, 0x15, 0xfa, 0x42, 0x26, 0x00, 0x00, 0x00,
    0xf0, 0x0a, 0x00, 0x00, 0x08, 0x00, 0x18, 0x00, 0x00, 0x00, 0x00, 0x00, 0x01, 0x00, 0x00, 0x00,
    0xa4, 0x81, 0x00, 0x00, 0x00, 0x00, 0x66, 0x69, 0x6c, 0x65, 0x2e, 0x74, 0x78, 0x74, 0x55, 0x54,
    0x05, 0x00, 0x03, 0x5c, 0x3c, 0x27, 0x6a, 0x75, 0x78, 0x0b, 0x00, 0x01, 0x04, 0xf5, 0x01, 0x00,
    0x00, 0x04, 0x00, 0x00, 0x00, 0x00, 0x50, 0x4b, 0x05, 0x06, 0x00, 0x00, 0x00, 0x00, 0x01, 0x00,
    0x01, 0x00, 0x4e, 0x00, 0x00, 0x00, 0x68, 0x00, 0x00, 0x00, 0x00, 0x00,
];

fn hits(counts: &[(String, usize)], keyword: &str) -> usize {
    counts.iter().find(|(k, _)| k == keyword).map(|(_, n)| *n).unwrap()
}

#[test]
fn counts_keyword_hits_case_insensitively() {
    let counts = count_keywords(b"Bold bold BOLD underline", &["bold", "underline"]);
    assert_eq!(hits(&counts, "bold"), 3);
    assert_eq!(hits(&counts, "underline"), 1);
}

#[test]
fn keyword_counts_are_ordered_by_keyword_and_do_not_overlap() {
    let counts = count_keywords(b"aaaa font", &["font", "aa", "AA"]);
    assert_eq!(counts, vec![("aa".to_owned(), 2), ("font".to_owned(), 1)]);
}

#[test]
fn reads_deflated_zip_entries() -> Result<(), Error> {
    let package = Package::from_bytes(DEFLATED_ZIP_ENTRY.to_vec())?;
    let entry = package.entry_bytes("file.txt")?;

    assert_eq!(entry.len(), 2_800);
    assert!(entry.starts_with(b"hello deflate\nhello deflate\n"));
    assert!(entry.ends_with(b"hello deflate\n"));

    Ok(())
}

#[test]
fn package_writer_round_trips_stored_entries() -> Result<(), Error> {
    let mut writer = PackageWriter::new();
    writer
        .add_entry("Metadata/DocumentIdentifier", b"doc-123".to_vec())
        .add_entry("Index/Metadata.iwa", b"bytes".to_vec());

    let package = Package::from_bytes(writer.finish()?)?;
    assert_eq!(package.entry_bytes("Metadata/DocumentIdentifier")?, b"doc-123");
    assert_eq!(package.entry_bytes("Index/Metadata.iwa")?, b"bytes");

    Ok(())
}

#[test]
fn missing_entries_are_reported_by_path() -> Result<(), Error> {
    let mut writer = PackageWriter::new();
    writer.add_entry("Index/Document.iwa", vec![1, 2, 3]);
    let package = Package::from_bytes(writer.finish()?)?;
    assert!(matches!(package.entry_bytes("Index/Other.iwa"), Err(Error::MissingEntry(p)) if p == "Index/Other.iwa"));
    assert_eq!(package.support(), PackageSupport::SupportedDirectIndexEntries);
    assert_eq!(package.entries().len(), 1);
    assert_eq!(package.entries()[0].path, "Index/Document.iwa");
    Ok(())
}

#[test]
fn non_zip_bytes_are_rejected() {
    assert!(matches!(Package::from_bytes(b"not a zip".to_vec()), Err(Error::NotAZipArchive)));
}

#[test]
fn legacy_and_unknown_layouts_are_classified() -> Result<(), Error> {
    let mut writer = PackageWriter::new();
    writer.add_entry("Index.zip", vec![0]);
    assert_eq!(Package::from_bytes(writer.finish()?)?.support(), PackageSupport::UnsupportedLegacyIndexZip);
    let mut writer = PackageWriter::new();
    writer.add_entry("other.txt", vec![0]);
    assert_eq!(Package::from_bytes(writer.finish()?)?.support(), PackageSupport::UnsupportedUnknownLayout);
    Ok(())
}

#[test]
fn inspect_reports_metadata_and_counts() -> Result<(), Error> {
    let plist = "<plist><dict><key>fileFormatVersion</key><string>14.4.1</string><key>isMultiPage</key><true/></dict></plist>";
    let mut writer = PackageWriter::new();
    writer
        .add_entry("Metadata/Properties.plist", plist.as_bytes().to_vec())
        .add_entry("Index/DocumentStylesheet.iwa", b"Bold italic FONT font".to_vec())
        .add_entry("Index/Document.IWA", vec![]);
    let document = Document::from_bytes(writer.finish()?)?;
    let report = document.inspect("budget.Numbers".to_owned())?;
    assert_eq!(report.kind, DocumentKind::Numbers);
    assert_eq!(report.support, PackageSupport::SupportedDirectIndexEntries);
    assert_eq!(report.properties.file_format_version.as_deref(), Some("14.4.1"));
    assert_eq!(report.properties.is_multi_page, Some(true));
    assert_eq!(report.entry_count, 3);
    assert_eq!(report.iwa_count, 2);
    assert_eq!(hits(&report.style_keyword_hits, "font"), 2);
    assert_eq!(hits(&report.style_keyword_hits, "bold"), 1);
    assert_eq!(hits(&report.style_keyword_hits, "strikethrough"), 0);
    Ok(())
}

#[test]
fn document_kinds_follow_the_file_extension() {
    assert_eq!(DocumentKind::from_path("a/b/report.numbers"), DocumentKind::Numbers);
    assert_eq!(DocumentKind::from_path("novel.PAGES"), DocumentKind::Pages);
    assert_eq!(DocumentKind::from_path("talk.key/"), DocumentKind::Keynote);
    assert_eq!(DocumentKind::from_path(".key"), DocumentKind::Unknown);
    assert_eq!(DocumentKind::from_path("archive.zip"), DocumentKind::Unknown);
    assert_eq!(DocumentKind::Keynote.as_str(), "keynote");
    assert_eq!(DocumentKind::Unknown.as_str(), "unknown");
}
