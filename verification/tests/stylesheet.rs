use iwork::iwa::{IwaArchive, IwaObject, IwaPacket};
use iwork::protobuf::{push_varint, ProtoField, ProtoMessage};
use iwork::style_catalog::StylesheetCatalog;
use iwork::stylesheet::{
    decode_display_name, decode_style_registry, decode_text_attributes, infer_style_attributes,
    looks_like_font_name, looks_like_identifier, looks_like_style_name, Color, StyleAttributes, TextAlignment,
    OPAQUE_ALPHA_BITS,
};

fn object(id: u64, kind: u64, payload: Vec<u8>) -> IwaObject {
    IwaObject { identifier: Some(id), message_type: Some(kind), version: None, references: Vec::new(), payload }
}

fn message(fields: Vec<ProtoField>) -> ProtoMessage {
    ProtoMessage::new(fields)
}

fn entry(name: &str, id: u64) -> ProtoField {
    let reference = message(vec![ProtoField::varint(1, id)]);
    let e = message(vec![ProtoField::string(1, name), ProtoField::message(2, &reference).unwrap()]);
    ProtoField::message(2, &e).unwrap()
}

#[test]
fn the_registry_names_the_last_object_with_each_identifier() {
    let root = message(vec![
        entry("paragraph-style-body", 7),
        ProtoField::varint(3, 1),
        entry("Heading", 9),
        entry("missing", 42),
        ProtoField::string(2, "not a message"),
    ])
    .encode()
    .unwrap();
    let objects = vec![
        object(1, 401, root),
        object(7, 2022, Vec::new()),
        object(9, 2022, Vec::new()),
        object(7, 2025, Vec::new()),
    ];
    let registry = decode_style_registry(&objects);
    assert_eq!(registry, vec![("paragraph-style-body".to_owned(), 3), ("Heading".to_owned(), 2)]);
}

#[test]
fn a_registry_needs_a_stylesheet_root() {
    let objects = vec![object(7, 2022, message(vec![entry("Body", 7)]).encode().unwrap())];
    assert!(decode_style_registry(&objects).is_empty());
}

#[test]
fn text_attributes_come_from_fields_eleven_and_twelve() {
    let color = message(vec![
        ProtoField::fixed32(3, 0x3F00_0000),
        ProtoField::fixed32(4, 0),
        ProtoField::fixed32(5, 0x3F80_0000),
    ]);
    let text = message(vec![
        ProtoField::varint(1, 1),
        ProtoField::varint(2, 0),
        ProtoField::fixed32(3, 12.0f32.to_bits()),
        ProtoField::string(5, "HelveticaNeue"),
        ProtoField::message(7, &color).unwrap(),
        ProtoField::varint(13, 1),
    ]);
    let cell = message(vec![ProtoField::varint(1, 2)]);
    let payload = message(vec![ProtoField::message(11, &text).unwrap(), ProtoField::message(12, &cell).unwrap()])
        .encode()
        .unwrap();
    let a = decode_text_attributes(&object(5, 2022, payload));
    assert_eq!(a.font_name.as_deref(), Some("HelveticaNeue"));
    assert_eq!(a.font_size_bits.map(f32::from_bits), Some(12.0));
    assert_eq!(a.bold, Some(true));
    assert_eq!(a.italic, Some(false));
    assert_eq!(a.underline, Some(true));
    assert_eq!(a.strikethrough, None);
    assert_eq!(a.color, Some(Color { r: 0x3F00_0000, g: 0, b: 0x3F80_0000, a: OPAQUE_ALPHA_BITS }));
    assert_eq!(a.alignment, Some(TextAlignment::Center));
}

#[test]
fn a_font_size_that_is_not_positive_and_finite_is_dropped() {
    for bits in [0u32, (-3.0f32).to_bits(), f32::INFINITY.to_bits(), f32::NAN.to_bits()] {
        let text = message(vec![ProtoField::fixed32(3, bits)]);
        let payload = message(vec![ProtoField::message(11, &text).unwrap()]).encode().unwrap();
        assert_eq!(decode_text_attributes(&object(5, 2022, payload)).font_size_bits, None);
    }
}

#[test]
fn a_style_without_text_attributes_sets_nothing() {
    let cell = message(vec![ProtoField::varint(1, 4)]);
    let payload = message(vec![ProtoField::message(12, &cell).unwrap()]).encode().unwrap();
    let a = decode_text_attributes(&object(5, 2022, payload));
    assert!(a.is_empty());
    assert_eq!(a, StyleAttributes::none());
}

#[test]
fn display_names_are_ascii_and_three_characters_long() {
    let named = |name: &str| {
        let base = message(vec![ProtoField::string(1, name)]);
        object(5, 2022, message(vec![ProtoField::message(1, &base).unwrap()]).encode().unwrap())
    };
    assert_eq!(decode_display_name(&named("Body")), Some("Body".to_owned()));
    assert_eq!(decode_display_name(&named("Hi")), None);
    assert_eq!(decode_display_name(&named("Café")), None);
    assert_eq!(decode_display_name(&object(5, 2022, Vec::new())), None);
}

#[test]
fn names_imply_the_flags_they_spell() {
    let plain = StyleAttributes::none();
    let a = infer_style_attributes("Heading Bold-Italic", plain.clone());
    assert_eq!((a.bold, a.italic, a.underline, a.strikethrough), (Some(true), Some(true), None, None));
    let b = infer_style_attributes("link UNDERLINE strikethrough", plain.clone());
    assert_eq!((b.bold, b.italic, b.underline, b.strikethrough), (None, None, Some(true), Some(true)));
    let mut with_font = plain.clone();
    with_font.font_name = Some("HelveticaNeue-Bold".to_owned());
    assert_eq!(infer_style_attributes("Body", with_font).bold, Some(true));
    let mut set = plain;
    set.bold = Some(false);
    assert_eq!(infer_style_attributes("Bold", set).bold, Some(false));
}

#[test]
fn names_are_told_apart() {
    assert!(looks_like_identifier("paragraph-style-body"));
    assert!(looks_like_identifier("list_style"));
    assert!(!looks_like_identifier("Heading 1"));
    assert!(looks_like_font_name("HelveticaNeue-Bold"));
    assert!(looks_like_font_name("Times New Roman"));
    assert!(!looks_like_font_name("HELVETICA"));
    assert!(!looks_like_font_name("Georgia"));
    assert!(looks_like_style_name("Heading 1"));
    assert!(looks_like_style_name("Title  With   Four Words"));
    assert!(!looks_like_style_name("One Two Three Four Five"));
    assert!(!looks_like_style_name("heading"));
    assert!(!looks_like_style_name(""));
    assert!(!looks_like_style_name("Helvetica Neue"));
    assert!(!looks_like_style_name("Body-Text"));
}

fn info(id: u64, kind: u64, len: usize) -> Vec<u8> {
    let message_info = message(vec![ProtoField::varint(1, kind), ProtoField::varint(3, len as u64)]);
    message(vec![ProtoField::varint(1, id), ProtoField::message(2, &message_info).unwrap()]).encode().unwrap()
}

fn archive_of(objects: &[(u64, u64, Vec<u8>)]) -> IwaArchive {
    let (id0, kind0, payload0) = &objects[0];
    let header = IwaPacket::new(info(*id0, *kind0, payload0.len()));
    let mut body = payload0.clone();
    for (id, kind, payload) in &objects[1..] {
        let record = info(*id, *kind, payload.len());
        push_varint(&mut body, record.len() as u64);
        body.extend_from_slice(&record);
        body.extend_from_slice(payload);
    }
    IwaArchive::decode(&IwaArchive::encode(header, body).unwrap()).unwrap()
}

fn style_object(display: &str, font: Option<&str>, size: Option<f32>) -> Vec<u8> {
    let base = message(vec![ProtoField::string(1, display)]);
    let mut text = Vec::new();
    if let Some(f) = font {
        text.push(ProtoField::string(5, f));
    }
    if let Some(s) = size {
        text.push(ProtoField::fixed32(3, s.to_bits()));
    }
    let mut fields = vec![ProtoField::message(1, &base).unwrap()];
    if !text.is_empty() {
        fields.push(ProtoField::message(11, &message(text)).unwrap());
    }
    message(fields).encode().unwrap()
}

#[test]
fn the_catalog_lists_sorted_distinct_records_and_names() {
    let root = message(vec![
        entry("paragraph-style-body", 7),
        entry("Heading Bold", 8),
        entry("Body", 9),
        entry("Body", 9),
    ])
    .encode()
    .unwrap();
    let archive = archive_of(&[
        (1, 401, root),
        (7, 2022, style_object("Body Text", Some("Helvetica"), Some(12.0))),
        (8, 2022, style_object("Heading", Some("HelveticaNeue-Bold"), Some(-3.0))),
        (9, 2022, style_object("x", None, None)),
    ]);
    let c = StylesheetCatalog::from_archive(&archive);
    let names: Vec<&str> = c.records.iter().map(|r| r.name.as_str()).collect();
    assert_eq!(names, vec!["Body", "Heading Bold", "paragraph-style-body"]);
    assert_eq!(c.records[0].object_id, Some(9));
    assert_eq!(c.records[1].attributes.bold, Some(true));
    assert_eq!(c.identifiers, vec!["paragraph-style-body".to_owned()]);
    assert_eq!(c.font_names, vec!["Helvetica".to_owned(), "HelveticaNeue-Bold".to_owned()]);
    assert_eq!(
        c.style_names,
        vec!["Body".to_owned(), "Body Text".to_owned(), "Heading".to_owned(), "Heading Bold".to_owned()]
    );
    // Attribute sets order by font name first.
    let sizes: Vec<Option<f32>> = c.attribute_hints.iter().map(|a| a.font_size_bits.map(f32::from_bits)).collect();
    assert_eq!(sizes, vec![Some(12.0), None]);
    assert!(c.referenced_object_ids.is_empty());
}

#[test]
fn font_sizes_order_as_total_cmp_orders_them() {
    let root = message(vec![entry("A", 7), entry("B", 8), entry("C", 9)]).encode().unwrap();
    let archive = archive_of(&[
        (1, 401, root),
        (7, 2022, style_object("aaa", Some("Font"), Some(2.0))),
        (8, 2022, style_object("bbb", Some("Font"), Some(f32::MIN_POSITIVE))),
        (9, 2022, style_object("ccc", Some("Font"), Some(1.0))),
    ]);
    let c = StylesheetCatalog::from_archive(&archive);
    let sizes: Vec<f32> = c.attribute_hints.iter().map(|a| f32::from_bits(a.font_size_bits.unwrap())).collect();
    assert_eq!(sizes, vec![f32::MIN_POSITIVE, 1.0, 2.0]);
}
