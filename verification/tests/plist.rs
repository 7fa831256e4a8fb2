use iwork::plist::parse_properties_plist;
use iwork::Error;

fn xml_plist(dict_body: &str) -> String {
    format!(
        r#"<?xml version="1.0" encoding="UTF-8"?>
<!DOCTYPE plist PUBLIC "-//Apple//DTD PLIST 1.0//EN" "">
<plist version="1.0">
<dict>
{dict_body}
</dict>
</plist>"#
    )
}

#[test]
fn parse_xml_string_fields() {
    let xml = xml_plist(
        r#"<key>documentUUID</key><string>ABC-123</string>
               <key>fileFormatVersion</key><string>12.1</string>"#,
    );
    let props = parse_properties_plist(xml.as_bytes()).unwrap();
    assert_eq!(props.document_uuid.as_deref(), Some("ABC-123"));
    assert_eq!(props.file_format_version.as_deref(), Some("12.1"));
    assert!(props.is_multi_page.is_none());
}

#[test]
fn parse_xml_bool_true() {
    let xml = xml_plist("<key>isMultiPage</key><true/>");
    let props = parse_properties_plist(xml.as_bytes()).unwrap();
    assert_eq!(props.is_multi_page, Some(true));
}

#[test]
fn parse_xml_bool_false() {
    let xml = xml_plist("<key>isMultiPage</key><false/>");
    let props = parse_properties_plist(xml.as_bytes()).unwrap();
    assert_eq!(props.is_multi_page, Some(false));
}

#[test]
fn parse_xml_all_known_keys() {
    let xml = xml_plist(
        r#"<key>documentUUID</key><string>D1</string>
               <key>fileFormatVersion</key><string>12</string>
               <key>isMultiPage</key><true/>
               <key>revision</key><string>REV</string>
               <key>stableDocumentUUID</key><string>SD1</string>
               <key>versionUUID</key><string>V1</string>"#,
    );
    let props = parse_properties_plist(xml.as_bytes()).unwrap();
    assert_eq!(props.document_uuid.as_deref(), Some("D1"));
    assert_eq!(props.file_format_version.as_deref(), Some("12"));
    assert_eq!(props.is_multi_page, Some(true));
    assert_eq!(props.revision.as_deref(), Some("REV"));
    assert_eq!(props.stable_document_uuid.as_deref(), Some("SD1"));
    assert_eq!(props.version_uuid.as_deref(), Some("V1"));
}

#[test]
fn parse_xml_unknown_keys_are_ignored() {
    let xml = xml_plist("<key>unknownKey</key><string>ignored</string>");
    let props = parse_properties_plist(xml.as_bytes()).unwrap();
    assert!(props.document_uuid.is_none());
    assert!(props.file_format_version.is_none());
}

#[test]
fn parse_xml_missing_dict_returns_error() {
    let xml = "<?xml version=\"1.0\"?><plist><array/></plist>";
    assert!(parse_properties_plist(xml.as_bytes()).is_err());
}

#[test]
fn parse_xml_unterminated_key_returns_error() {
    let xml = xml_plist("<key>documentUUID</key><string>oops");
    assert!(parse_properties_plist(xml.as_bytes()).is_err());
}

#[test]
fn parse_binary_magic_routes_to_binary_parser() {
    let bad_binary = b"bplist00\x00\x00";
    let err = parse_properties_plist(bad_binary).unwrap_err();
    assert!(matches!(err, Error::InvalidPlist(_)), "expected InvalidPlist, got {err:?}");
}

#[test]
fn parse_xml_routes_non_binary_to_xml_parser() {
    let not_xml = b"this is not xml at all";
    let err = parse_properties_plist(not_xml).unwrap_err();
    assert!(matches!(err, Error::InvalidPlist(_)));
}

#[test]
fn parse_xml_later_values_replace_earlier_ones() {
    let xml = xml_plist(
        "<key>revision</key><string>A</string>\n<key>revision</key><string>B</string>\n<key>isMultiPage</key><true/><key>isMultiPage</key>\n<false/>",
    );
    let props = parse_properties_plist(xml.as_bytes()).unwrap();
    assert_eq!(props.revision.as_deref(), Some("B"));
    assert_eq!(props.is_multi_page, Some(false));
}

#[test]
fn parse_xml_rejects_unsupported_value_types() {
    let xml = xml_plist("<key>revision</key><integer>3</integer>");
    assert!(matches!(
        parse_properties_plist(xml.as_bytes()),
        Err(Error::InvalidPlist("unsupported value type"))
    ));
}

#[test]
fn parse_rejects_non_utf8_xml() {
    assert!(matches!(
        parse_properties_plist(&[0x3c, 0xff, 0xfe]),
        Err(Error::InvalidPlist("expected UTF-8"))
    ));
}

/// A binary plist: a dictionary {documentUUID: "U1", isMultiPage: true,
/// revision: "R" (UTF-16)}.
fn binary_plist() -> Vec<u8> {
    let mut b = b"bplist00".to_vec();
    let mut offsets = Vec::new();
    // object 0: dict with 3 entries; keys 1,2,3; values 4,5,6
    offsets.push(b.len());
    b.extend_from_slice(&[0xD3, 1, 2, 3, 4, 5, 6]);
    offsets.push(b.len());
    b.push(0x5C);
    b.extend_from_slice(b"documentUUID");
    offsets.push(b.len());
    b.push(0x5B);
    b.extend_from_slice(b"isMultiPage");
    offsets.push(b.len());
    b.push(0x58);
    b.extend_from_slice(b"revision");
    offsets.push(b.len());
    b.push(0x52);
    b.extend_from_slice(b"U1");
    offsets.push(b.len());
    b.push(0x09);
    offsets.push(b.len());
    b.extend_from_slice(&[0x61, 0x00, 0x52]);
    let table = b.len();
    for o in &offsets {
        b.push(*o as u8);
    }
    let mut trailer = vec![0u8; 6];
    trailer.push(1);
    trailer.push(1);
    trailer.extend_from_slice(&(offsets.len() as u64).to_be_bytes());
    trailer.extend_from_slice(&0u64.to_be_bytes());
    trailer.extend_from_slice(&(table as u64).to_be_bytes());
    b.extend_from_slice(&trailer);
    b
}

#[test]
fn parse_binary_plist_dictionary() {
    let props = parse_properties_plist(&binary_plist()).unwrap();
    assert_eq!(props.document_uuid.as_deref(), Some("U1"));
    assert_eq!(props.is_multi_page, Some(true));
    assert_eq!(props.revision.as_deref(), Some("R"));
    assert!(props.version_uuid.is_none());
}

#[test]
fn parse_binary_plist_rejects_short_input() {
    let mut b = b"bplist00".to_vec();
    b.extend_from_slice(&[0u8; 20]);
    assert!(matches!(
        parse_properties_plist(&b),
        Err(Error::InvalidPlist("binary plist is too short"))
    ));
}

#[test]
fn a_dictionary_closed_before_it_opens_is_refused() {
    let err = iwork::plist::parse_properties_plist(b"</dict><dict>").unwrap_err();
    assert!(matches!(err, iwork::Error::InvalidPlist(_)));
}
