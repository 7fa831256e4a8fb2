use iwork::iwa_text::{normalize_utf8_field, TextCollector};
use iwork::protobuf::{ProtoField, ProtoMessage};
use iwork::Error;

#[test]
fn extracts_only_structural_utf8_fields() -> Result<(), Error> {
    let mut body = ProtoMessage::new(vec![
        ProtoField::string(3, "Visible Text"),
        ProtoField::message(4, &ProtoMessage::new(vec![ProtoField::string(2, "Nested Text")]))?,
    ])
    .encode()?;
    body.extend_from_slice(b"Raw Printable Noise");

    let mut collector = TextCollector::new();
    collector.collect_field_stream(&body, 0);

    assert_eq!(collector.into_strings(), vec!["Visible Text".to_owned(), "Nested Text".to_owned()]);
    Ok(())
}

#[test]
fn text_fields_are_trimmed_and_white_space_collapses() {
    let r = normalize_utf8_field("  two \n\t words  ".as_bytes());
    assert_eq!(r.map(|v| v.into_iter().collect::<String>()), Some("two words".to_owned()));
}

#[test]
fn control_characters_and_blank_fields_are_not_text() {
    assert!(normalize_utf8_field(b"a\x01b").is_none());
    assert!(normalize_utf8_field(b"   ").is_none());
    assert!(normalize_utf8_field(&[0xff, 0xfe]).is_none());
}

#[test]
fn repeated_text_is_collected_once() -> Result<(), Error> {
    let body = ProtoMessage::new(vec![
        ProtoField::string(1, "same"),
        ProtoField::string(2, "same"),
        ProtoField::string(3, "other"),
    ])
    .encode()?;
    let mut collector = TextCollector::new();
    collector.collect_field_stream(&body, 0);
    assert_eq!(collector.into_strings(), vec!["same".to_owned(), "other".to_owned()]);
    Ok(())
}
