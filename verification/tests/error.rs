use iwork::text::{byte_starts, to_lowercase, utf8_width};
use iwork::Error;

#[test]
fn errors_describe_themselves() {
    assert_eq!(Error::NotAZipArchive.describe(), "file does not look like a zip archive");
    assert_eq!(Error::MissingEntry("Index/Document.iwa".to_owned()).describe(), "missing entry: Index/Document.iwa");
    assert_eq!(Error::UnsupportedIwaChunkType(7).describe(), "unsupported iwa chunk type: 7");
    assert_eq!(
        Error::UnsupportedCompression { path: "a.txt".to_owned(), method: 12 }.describe(),
        "entry a.txt uses unsupported compression method 12"
    );
    assert_eq!(
        Error::InvalidCompressedEntry { path: "b".to_owned() }.describe(),
        "entry b could not be decompressed"
    );
    assert_eq!(Error::Io("denied".to_owned()).describe(), "I/O error: denied");
    assert_eq!(Error::InvalidPlist("missing <dict>").describe(), "invalid plist: missing <dict>");
    assert_eq!(Error::InvalidIwa("bad chunk").describe(), "invalid iwa: bad chunk");
    assert_eq!(Error::Truncated("varint").describe(), "truncated varint");
    assert_eq!(Error::InvalidUtf8.describe(), "invalid UTF-8");
}

#[test]
fn utf8_widths_follow_the_encoding() {
    assert_eq!(utf8_width('a'), 1);
    assert_eq!(utf8_width('é'), 2);
    assert_eq!(utf8_width('\u{FFFC}'), 3);
    assert_eq!(utf8_width('😀'), 4);
    let chars: Vec<char> = "aé😀".chars().collect();
    assert_eq!(byte_starts(&chars), vec![0, 1, 3, 7]);
}

#[test]
fn lowercase_maps_every_character() {
    assert_eq!(to_lowercase("CHAPTER Heading"), "chapter heading");
    assert_eq!(to_lowercase("ÉTÉ"), "été");
}

#[test]
fn bytes_are_written_in_lower_case_hex() {
    assert_eq!(iwork::text::hex(&[0x00, 0x0f, 0xa5, 0xff]), "00 0f a5 ff ");
    assert_eq!(iwork::text::hex(&[]), "");
}
