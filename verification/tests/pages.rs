use iwork::iwa::{IwaArchive, IwaPacket};
use iwork::package::PackageWriter;
use iwork::pages::body::{decode_text_formatting, merge_formatting, named_char_style_formatting};
use iwork::pages::paragraphs::{build_text_runs, StyleMaps};
use iwork::pages::{self, Body, DocumentModel, Paragraph, SemanticDocument, TextFormatting, TextRun};
use iwork::protobuf::{push_varint, ProtoField, ProtoMessage};
use iwork::Error;

fn one_object(id: u64, kind: u64, payload: Vec<u8>) -> Vec<u8> {
    let message_info = ProtoMessage::new(vec![ProtoField::varint(1, kind), ProtoField::varint(3, payload.len() as u64)]);
    let header = ProtoMessage::new(vec![ProtoField::varint(1, id), ProtoField::message(2, &message_info).unwrap()])
        .encode()
        .unwrap();
    IwaArchive::encode(IwaPacket::new(header), payload).unwrap()
}

fn pages_package() -> Vec<u8> {
    let text = ProtoMessage::new(vec![
        ProtoField::string(1, "Chapter One"),
        ProtoField::string(2, "It was a dark night."),
    ])
    .encode()
    .unwrap();
    let mut w = PackageWriter::new();
    w.add_entry("Index/Document.iwa", one_object(1, 10000, text));
    w.add_entry("Index/DocumentMetadata.iwa", one_object(2, 11011, Vec::new()));
    w.add_entry("Index/Metadata.iwa", one_object(3, 11006, Vec::new()));
    w.add_entry("Index/DocumentStylesheet.iwa", one_object(4, 401, Vec::new()));
    w.add_entry("Index/ViewState.iwa", one_object(5, 210, Vec::new()));
    w.add_entry("Index/AnnotationAuthorStorage.iwa", one_object(6, 213, Vec::new()));
    w.add_entry("Index/notes.txt", b"plain".to_vec());
    w.finish().unwrap()
}

#[test]
fn document_model_keeps_the_other_index_archives_sorted() -> Result<(), Error> {
    let doc = pages::Document::from_bytes(pages_package())?;
    let model = DocumentModel::from_package(doc.package())?;
    let paths: Vec<&str> = model.index_archives().iter().map(|a| a.path()).collect();
    assert_eq!(paths, vec!["Index/AnnotationAuthorStorage.iwa", "Index/ViewState.iwa"]);
    assert_eq!(model.index_archives()[1].archive().descriptor().root_object_id, Some(5));
    assert_eq!(model.document().descriptor().root_object_id, Some(1));
    assert_eq!(model.document_metadata().descriptor().root_object_id, Some(2));
    assert_eq!(model.metadata().descriptor().root_object_id, Some(3));
    assert_eq!(model.stylesheet().descriptor().root_object_id, Some(4));
    Ok(())
}

#[test]
fn semantic_document_lists_the_text_fields() -> Result<(), Error> {
    let doc = pages::Document::from_bytes(pages_package())?;
    let semantic = SemanticDocument::from_package(doc.package())?;
    assert_eq!(semantic.title(), None);
    assert!(semantic.headings().is_empty());
    assert_eq!(semantic.text_fragments(), &["Chapter One".to_owned(), "It was a dark night.".to_owned()]);
    Ok(())
}

#[test]
fn a_missing_core_archive_is_reported() -> Result<(), Error> {
    let mut w = PackageWriter::new();
    w.add_entry("Index/Document.iwa", one_object(1, 10000, Vec::new()));
    let doc = pages::Document::from_bytes(w.finish()?)?;
    assert!(matches!(DocumentModel::from_package(doc.package()), Err(Error::MissingEntry(p)) if p == "Index/DocumentMetadata.iwa"));
    Ok(())
}

fn msg(fields: Vec<ProtoField>) -> ProtoMessage {
    ProtoMessage::new(fields)
}

fn bytes(fields: Vec<ProtoField>) -> Vec<u8> {
    msg(fields).encode().unwrap()
}

fn reference(id: u64) -> ProtoMessage {
    msg(vec![ProtoField::varint(1, id)])
}

fn info(id: u64, kind: u64, len: usize) -> Vec<u8> {
    let message_info = msg(vec![ProtoField::varint(1, kind), ProtoField::varint(3, len as u64)]);
    bytes(vec![ProtoField::varint(1, id), ProtoField::message(2, &message_info).unwrap()])
}

/// An archive of several `(id, type, payload)` objects.
fn archive(objects: &[(u64, u64, Vec<u8>)]) -> Vec<u8> {
    let (id0, kind0, payload0) = &objects[0];
    let header = IwaPacket::new(info(*id0, *kind0, payload0.len()));
    let mut body = payload0.clone();
    for (id, kind, payload) in &objects[1..] {
        let record = info(*id, *kind, payload.len());
        push_varint(&mut body, record.len() as u64);
        body.extend_from_slice(&record);
        body.extend_from_slice(payload);
    }
    IwaArchive::encode(header, body).unwrap()
}

/// A run list: field 1 entries of `{1: offset, 2: {1: id}}`.
fn run_list(runs: &[(u64, u64)]) -> ProtoMessage {
    msg(runs
        .iter()
        .map(|(off, id)| {
            ProtoField::message(1, &msg(vec![ProtoField::varint(1, *off), ProtoField::message(2, &reference(*id)).unwrap()]))
                .unwrap()
        })
        .collect())
}

fn named(id: u64, kind: u64, name: &str) -> (u64, u64, Vec<u8>) {
    (id, kind, bytes(vec![ProtoField::message(1, &msg(vec![ProtoField::string(1, name)])).unwrap()]))
}

const TEXT: &str = "Geology Report\nIntroduction\nRocks are old.\n\u{FFFC}\nBold start";

fn styled_pages_package() -> Vec<u8> {
    let wp_body = bytes(vec![ProtoField::message(1, &msg(vec![ProtoField::string(3, "04B_Term_Paper")])).unwrap()]);
    let text = bytes(vec![
        ProtoField::string(3, TEXT),
        ProtoField::message(5, &run_list(&[(28, 103), (0, 101), (15, 102)])).unwrap(),
        ProtoField::message(7, &run_list(&[(47, 301), (28, 401), (51, 302)])).unwrap(),
        ProtoField::message(8, &run_list(&[(47, 501)])).unwrap(),
    ]);
    let media = bytes(vec![ProtoField::message(1, &msg(vec![ProtoField::string(8, "A mountain")])).unwrap()]);
    let document = archive(&[(1, 10001, wp_body), (2, 2001, text), (3, 3005, media)]);

    let entry = |key: &str, id: u64| {
        ProtoField::message(2, &msg(vec![ProtoField::string(1, key), ProtoField::message(2, &reference(id)).unwrap()]))
            .unwrap()
    };
    let registry = bytes(vec![
        entry("text-0-paragraphstyle-Title", 101),
        entry("text-0-paragraphstyle-Heading 1", 102),
        entry("text-0-paragraphstyle-Body", 103),
    ]);
    let attrs = msg(vec![
        ProtoField::varint(1, 1),
        ProtoField::fixed32(3, 12.0f32.to_bits()),
        ProtoField::string(5, "Helvetica"),
    ]);
    let char_style = bytes(vec![ProtoField::message(11, &attrs).unwrap()]);
    let stylesheet = archive(&[
        (10, 401, registry),
        (301, 2022, char_style),
        named(401, 2023, "Bullet"),
        named(501, 2021, "Emphasis"),
    ]);

    let mut w = PackageWriter::new();
    w.add_entry("Index/Document.iwa", document);
    w.add_entry("Index/DocumentStylesheet.iwa", stylesheet);
    w.finish().unwrap()
}

fn plain_run(text: &str) -> TextRun {
    TextRun { text: text.to_owned(), formatting: TextFormatting::default() }
}

#[test]
fn body_classifies_paragraphs_by_style() -> Result<(), Error> {
    let body = pages::Document::from_bytes(styled_pages_package())?.document()?;
    assert_eq!(body.template_name(), Some("04B_Term_Paper"));
    assert_eq!(body.title(), Some("Geology Report"));
    assert_eq!(body.headings(), &["Introduction".to_owned()]);
    assert_eq!(body.text_fragments(), &["Rocks are old.".to_owned(), "Bold start".to_owned()]);
    assert_eq!(body.media_descriptions(), &["A mountain".to_owned()]);
    Ok(())
}

#[test]
fn body_paragraphs_carry_styles_lists_and_runs() -> Result<(), Error> {
    let body = pages::Document::from_bytes(styled_pages_package())?.document()?;
    let paragraphs = body.paragraphs();
    assert_eq!(paragraphs.len(), 4);
    assert_eq!(paragraphs[0].style_name, "Title");
    assert_eq!(paragraphs[0].list_style, None);
    assert_eq!(paragraphs[0].runs, vec![plain_run("Geology Report")]);
    assert_eq!(paragraphs[1].style_name, "Heading 1");
    assert_eq!(paragraphs[2].style_name, "Body");
    assert_eq!(paragraphs[2].list_style, Some("Bullet".to_owned()));
    assert_eq!(paragraphs[2].runs, vec![plain_run("Rocks are old.")]);
    let last = &paragraphs[3];
    assert_eq!(last.style_name, "Body");
    assert_eq!(last.list_style, None);
    assert_eq!(last.text(), "Bold start");
    assert_eq!(last.runs.len(), 2);
    assert_eq!(last.runs[0].text, "Bold");
    assert_eq!(last.runs[0].formatting.bold, Some(true));
    assert_eq!(last.runs[0].formatting.italic, Some(true));
    assert_eq!(last.runs[0].formatting.font_name.as_deref(), Some("Helvetica"));
    assert_eq!(last.runs[0].formatting.font_size_bits, Some(12.0f32.to_bits()));
    assert_eq!(last.runs[1].text, " start");
    assert_eq!(last.runs[1].formatting.bold, None);
    assert_eq!(last.runs[1].formatting.italic, Some(true));
    Ok(())
}

#[test]
fn body_needs_the_stylesheet_archive() -> Result<(), Error> {
    let mut w = PackageWriter::new();
    w.add_entry("Index/Document.iwa", archive(&[(1, 10001, Vec::new())]));
    let doc = pages::Document::from_bytes(w.finish()?)?;
    assert!(matches!(doc.document(), Err(Error::MissingEntry(p)) if p == "Index/DocumentStylesheet.iwa"));
    Ok(())
}

#[test]
fn body_round_trips_text_fragments() -> Result<(), Error> {
    let mut body = Body::default();
    body.set_text_fragments(vec!["Hello".to_owned(), "World".to_owned(), "Goodbye".to_owned()]);
    let bytes = body.to_pages_bytes()?;
    let doc = pages::Document::from_bytes(bytes)?;
    let decoded = doc.document()?;
    assert_eq!(decoded.text_fragments(), body.text_fragments());
    Ok(())
}

#[test]
fn body_round_trips_template_name() -> Result<(), Error> {
    let mut body = Body::default();
    body.set_template_name(Some("04B_Term_Paper".to_owned()));
    body.set_text_fragments(vec!["Some text".to_owned()]);
    let bytes = body.to_pages_bytes()?;
    let doc = pages::Document::from_bytes(bytes)?;
    let decoded = doc.document()?;
    assert_eq!(decoded.template_name(), Some("04B_Term_Paper"));
    Ok(())
}

#[test]
fn set_text_fragments_makes_plain_body_paragraphs() {
    let mut body = Body::default();
    body.set_paragraphs(vec![Paragraph { style_name: "Title".to_owned(), list_style: None, runs: vec![plain_run("T")] }]);
    assert_eq!(body.title(), Some("T"));
    body.set_text_fragments(vec!["One".to_owned()]);
    assert_eq!(body.title(), None);
    assert_eq!(body.paragraphs().len(), 1);
    assert_eq!(body.paragraphs()[0].style_name, "Body");
    assert_eq!(body.paragraphs()[0].runs, vec![plain_run("One")]);
}

#[test]
fn set_paragraphs_dedups_and_classifies_headings() {
    let mut body = Body::default();
    let para = |style: &str, text: &str| Paragraph { style_name: style.to_owned(), list_style: None, runs: vec![plain_run(text)] };
    body.set_paragraphs(vec![
        para("TITLE", "  Name  "),
        para("Title", "Second title"),
        para("CHAPTER heading", "Part"),
        para("Body", "Name"),
        para("Body", "   "),
        para("Body", "Text"),
    ]);
    assert_eq!(body.title(), Some("Name"));
    assert_eq!(body.headings(), &["Part".to_owned()]);
    assert_eq!(body.text_fragments(), &["Second title".to_owned(), "Text".to_owned()]);
    assert_eq!(body.paragraphs().len(), 6);
}

#[test]
fn text_formatting_is_read_from_field_eleven() {
    let attrs = msg(vec![
        ProtoField::varint(2, 0),
        ProtoField::fixed32(3, f32::INFINITY.to_bits()),
        ProtoField::varint(13, 7),
    ]);
    let f = decode_text_formatting(&bytes(vec![ProtoField::message(11, &attrs).unwrap()]));
    assert_eq!(f.bold, None);
    assert_eq!(f.italic, Some(false));
    assert_eq!(f.underline, Some(true));
    assert_eq!(f.font_size_bits, None);
    assert!(decode_text_formatting(&[0xff]).is_default());
}

#[test]
fn named_styles_and_merging() {
    assert_eq!(named_char_style_formatting("Italic").italic, Some(true));
    assert_eq!(named_char_style_formatting("Link").underline, Some(true));
    assert_eq!(named_char_style_formatting("Strikethrough").strikethrough, Some(true));
    assert!(named_char_style_formatting("Other").is_default());
    let mut base = TextFormatting::plain();
    base.bold = Some(true);
    base.italic = Some(false);
    let merged = merge_formatting(base, named_char_style_formatting("Emphasis"));
    assert_eq!(merged.bold, Some(true));
    assert_eq!(merged.italic, Some(true));
}

#[test]
fn runs_are_cut_only_between_characters() {
    let maps = StyleMaps { para: vec![], char_fmt: vec![], named_char_fmt: vec![], list: vec![] };
    let raw: Vec<char> = " é! ".chars().collect();
    // Offset 2 falls inside 'é' (bytes 1..3): no run can start or end there.
    let runs = build_text_runs(&raw, 0, &vec![(2, 9)], &vec![], &maps);
    assert_eq!(runs, vec![plain_run("é!")]);
    // Offset 3 is a character boundary: the text is cut there, untrimmed.
    let runs = build_text_runs(&raw, 0, &vec![(3, 9)], &vec![], &maps);
    assert_eq!(runs, vec![plain_run(" é"), plain_run("! ")]);
    // Offsets are absolute: a paragraph starting at byte 10 is cut at 13.
    let runs = build_text_runs(&raw, 10, &vec![(13, 9)], &vec![], &maps);
    assert_eq!(runs, vec![plain_run(" é"), plain_run("! ")]);
}

#[test]
fn written_body_reads_back_as_plain_paragraphs() -> Result<(), Error> {
    let mut body = Body::default();
    body.set_template_name(Some("Blank".to_owned()));
    body.set_text_fragments(vec!["Première ligne".to_owned(), "Second".to_owned()]);
    let decoded = pages::Document::from_bytes(body.to_pages_bytes()?)?.document()?;
    assert_eq!(decoded.template_name(), Some("Blank"));
    assert_eq!(decoded.title(), None);
    assert!(decoded.headings().is_empty());
    assert!(decoded.media_descriptions().is_empty());
    let expected: Vec<Paragraph> = ["Première ligne", "Second"]
        .iter()
        .map(|t| Paragraph { style_name: String::new(), list_style: None, runs: vec![plain_run(t)] })
        .collect();
    assert_eq!(decoded.paragraphs(), expected.as_slice());
    assert_eq!(decoded.text_fragments(), &["Première ligne".to_owned(), "Second".to_owned()]);
    Ok(())
}

#[test]
fn an_empty_written_body_keeps_only_its_template() -> Result<(), Error> {
    let mut body = Body::default();
    body.set_template_name(Some("Letter".to_owned()));
    let decoded = pages::Document::from_bytes(body.to_pages_bytes()?)?.document()?;
    assert_eq!(decoded.template_name(), Some("Letter"));
    assert!(decoded.paragraphs().is_empty());
    assert!(decoded.text_fragments().is_empty());
    Ok(())
}
