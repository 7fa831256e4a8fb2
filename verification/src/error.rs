use crate::keynote::write::{decimal, decimal_chars};
use crate::text::{chars_of, string_from_chars};
use vstd::prelude::*;

verus! {

/// All errors that can arise when opening or reading an iWork package.
#[derive(Debug, Clone, PartialEq, Eq)]
pub enum Error {
    /// An OS-level I/O failure, carried as its description.
    Io(String),
    /// The file does not begin with a ZIP local-file-header signature.
    NotAZipArchive,
    /// The file extension is not one of `.numbers`, `.pages`, or `.key`.
    UnsupportedDocumentType(String),
    /// An IWA chunk carries an unrecognised kind byte (only `0` / Snappy is supported).
    UnsupportedIwaChunkType(u8),
    /// The end-of-central-directory (EOCD) record could not be located in the ZIP.
    MissingEndOfCentralDirectory,
    /// The ZIP central directory is malformed or its offsets are out of range.
    InvalidCentralDirectory,
    /// A ZIP local file header has a bad signature or out-of-range field offsets.
    InvalidLocalFileHeader,
    /// An entry uses a ZIP compression method other than stored (0) or deflate (8).
    UnsupportedCompression { path: String, method: u16 },
    /// A deflate-compressed entry could not be decompressed.
    InvalidCompressedEntry { path: String },
    /// A requested package entry path was not found in the ZIP central directory.
    MissingEntry(String),
    /// A byte sequence that was expected to be valid UTF-8 was not.
    InvalidUtf8,
    /// A `Metadata/Properties.plist` value is missing or has the wrong type.
    InvalidPlist(&'static str),
    /// An IWA or Snappy framing invariant was violated.
    InvalidIwa(&'static str),
    /// A read ran off the end of an expected byte range.
    Truncated(&'static str),
}

/// The human-readable description of an error.
pub open spec fn error_text(e: Error) -> Seq<char> {
    match e {
        Error::Io(s) => "I/O error: "@ + s@,
        Error::NotAZipArchive => "file does not look like a zip archive"@,
        Error::UnsupportedDocumentType(p) => "unsupported iWork document type: "@ + p@,
        Error::UnsupportedIwaChunkType(k) => "unsupported iwa chunk type: "@ + decimal(k as nat),
        Error::MissingEndOfCentralDirectory => "could not find end-of-central-directory record"@,
        Error::InvalidCentralDirectory => "invalid central directory"@,
        Error::InvalidLocalFileHeader => "invalid local file header"@,
        Error::UnsupportedCompression { path, method } => "entry "@ + path@ + " uses unsupported compression method "@
            + decimal(method as nat),
        Error::InvalidCompressedEntry { path } => "entry "@ + path@ + " could not be decompressed"@,
        Error::MissingEntry(p) => "missing entry: "@ + p@,
        Error::InvalidUtf8 => "invalid UTF-8"@,
        Error::InvalidPlist(m) => "invalid plist: "@ + m@,
        Error::InvalidIwa(m) => "invalid iwa: "@ + m@,
        Error::Truncated(s) => "truncated "@ + s@,
    }
}

fn joined(parts: Vec<Vec<char>>) -> (r: String)
    ensures
        r@ == parts@.map_values(|v: Vec<char>| v@).fold_left(Seq::<char>::empty(), |a: Seq<char>, b: Seq<char>| a + b),
{
    let mut out: Vec<char> = Vec::new();
    let ghost all = parts@.map_values(|v: Vec<char>| v@);
    let mut i: usize = 0;
    while i < parts.len()
        invariant
            i <= parts@.len(),
            all == parts@.map_values(|v: Vec<char>| v@),
            out@ == all.take(i as int).fold_left(Seq::<char>::empty(), |a: Seq<char>, b: Seq<char>| a + b),
        decreases parts.len() - i,
    {
        let ghost before = out@;
        let part = &parts[i];
        let mut k: usize = 0;
        while k < part.len()
            invariant
                k <= part@.len(),
                out@ == before + part@.take(k as int),
            decreases part.len() - k,
        {
            out.push(part[k]);
            assert(part@.take(k + 1) =~= part@.take(k as int).push(part@[k as int]));
            assert(out@ =~= before + part@.take(k + 1));
            k = k + 1;
        }
        assert(part@.take(part@.len() as int) =~= part@);
        assert(all.take(i + 1).drop_last() =~= all.take(i as int));
        assert(all[i as int] == part@);
        i = i + 1;
    }
    assert(all.take(parts@.len() as int) =~= all);
    string_from_chars(out.as_slice())
}

impl Error {
    /// Describes the error in words (see [`error_text`]).
    pub fn describe(&self) -> (r: String)
        ensures
            r@ == error_text(*self),
    {
        let parts: Vec<Vec<char>> = match self {
            Error::Io(s) => vec![chars_of("I/O error: "), chars_of(s.as_str())],
            Error::NotAZipArchive => vec![chars_of("file does not look like a zip archive")],
            Error::UnsupportedDocumentType(p) => vec![chars_of("unsupported iWork document type: "), chars_of(p.as_str())],
            Error::UnsupportedIwaChunkType(k) => vec![chars_of("unsupported iwa chunk type: "), decimal_chars(*k as u64)],
            Error::MissingEndOfCentralDirectory => vec![chars_of("could not find end-of-central-directory record")],
            Error::InvalidCentralDirectory => vec![chars_of("invalid central directory")],
            Error::InvalidLocalFileHeader => vec![chars_of("invalid local file header")],
            Error::UnsupportedCompression { path, method } => vec![
                chars_of("entry "),
                chars_of(path.as_str()),
                chars_of(" uses unsupported compression method "),
                decimal_chars(*method as u64),
            ],
            Error::InvalidCompressedEntry { path } => vec![
                chars_of("entry "),
                chars_of(path.as_str()),
                chars_of(" could not be decompressed"),
            ],
            Error::MissingEntry(p) => vec![chars_of("missing entry: "), chars_of(p.as_str())],
            Error::InvalidUtf8 => vec![chars_of("invalid UTF-8")],
            Error::InvalidPlist(m) => vec![chars_of("invalid plist: "), chars_of(m)],
            Error::InvalidIwa(m) => vec![chars_of("invalid iwa: "), chars_of(m)],
            Error::Truncated(s) => vec![chars_of("truncated "), chars_of(s)],
        };
        let ghost pv = parts@.map_values(|v: Vec<char>| v@);
        let r = joined(parts);
        proof {
            reveal_with_fuel(Seq::fold_left, 5);
        }
        assert(r@ == error_text(*self)) by {
            match *self {
                Error::UnsupportedCompression { path, method } => {
                    assert(pv =~= seq!["entry "@, path@, " uses unsupported compression method "@, decimal(method as nat)]);
                },
                Error::InvalidCompressedEntry { path } => {
                    assert(pv =~= seq!["entry "@, path@, " could not be decompressed"@]);
                },
                _ => {},
            }
        }
        r
    }
}

} // verus!
