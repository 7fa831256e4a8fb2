//! ZIP-level package reader and writer for iWork documents.
//!
//! Only the standard EOCD, central-directory and local-file-header records
//! are read; entry names must be UTF-8, and entries may be stored (`0`) or
//! deflated (`8`). The writer produces stored entries.
use crate::error::Error;
use crate::protobuf::{copy_bytes, extend_bytes};
use crate::inspect::{count_keywords, keyword_counts, InspectionReport};
use crate::kind::{ascii_lowercase, extension_of, spec_extension, spec_kind_of, to_ascii_lowercase, DocumentKind};
use crate::plist::{parse_properties_plist, spec_parse_properties, PlistView, PropertiesPlist};
use crate::text::{chars_equal, chars_of, chars_start_with, has_prefix, lossy_text, string_from_utf8};
use vstd::prelude::*;
use vstd::utf8::{decode_utf8, encode_utf8, valid_utf8};

verus! {

/// Signature of the end-of-central-directory record.
pub const EOCD_SIGNATURE: u32 = 0x0605_4B50;

/// Signature of a central-directory record.
pub const CENTRAL_DIRECTORY_SIGNATURE: u32 = 0x0201_4B50;

/// Signature of a local file header.
pub const LOCAL_FILE_SIGNATURE: u32 = 0x0403_4B50;

/// The ZIP compression method of stored entries.
pub const STORED_COMPRESSION_METHOD: u16 = 0;

/// The ZIP compression method of deflated entries.
pub const DEFLATE_COMPRESSION_METHOD: u16 = 8;

// ───────────────────────────── little-endian reads ─────────────────────────────

/// The little-endian 16-bit value at `bytes[c..c + 2]`.
pub open spec fn le16(bytes: Seq<u8>, c: int) -> nat {
    bytes[c] as nat + 256 * (bytes[c + 1] as nat)
}

/// The little-endian 32-bit value at `bytes[c..c + 4]`.
pub open spec fn le32(bytes: Seq<u8>, c: int) -> nat {
    le16(bytes, c) + 65536 * le16(bytes, c + 2)
}

/// Reading a `u16` at `c`.
pub open spec fn spec_read_u16(bytes: Seq<u8>, c: int) -> Result<u16, Error> {
    if c < 0 || c + 2 > bytes.len() {
        Err(Error::Truncated("u16"))
    } else {
        Ok(le16(bytes, c) as u16)
    }
}

/// Reading a `u32` at `c`.
pub open spec fn spec_read_u32(bytes: Seq<u8>, c: int) -> Result<u32, Error> {
    if c < 0 || c + 4 > bytes.len() {
        Err(Error::Truncated("u32"))
    } else {
        Ok(le32(bytes, c) as u32)
    }
}

/// The little-endian values at `c` fit their widths.
pub proof fn lemma_le_bounds(bytes: Seq<u8>, c: int)
    requires
        0 <= c,
        c + 2 <= bytes.len(),
    ensures
        le16(bytes, c) < 0x1_0000,
        c + 4 <= bytes.len() ==> le32(bytes, c) < 0x1_0000_0000,
{
    let a = bytes[c] as nat;
    let b = bytes[c + 1] as nat;
    assert(a + 256 * b < 0x1_0000) by (nonlinear_arith)
        requires
            a < 256, b < 256,
    ;
    if c + 4 <= bytes.len() {
        let x = le16(bytes, c);
        let y = bytes[c + 2] as nat + 256 * (bytes[c + 3] as nat);
        let y0 = bytes[c + 2] as nat;
        let y1 = bytes[c + 3] as nat;
        assert(y0 + 256 * y1 < 0x1_0000) by (nonlinear_arith)
            requires
                y0 < 256, y1 < 256,
        ;
        assert(x + 65536 * y < 0x1_0000_0000) by (nonlinear_arith)
            requires
                x < 0x1_0000, y < 0x1_0000,
        ;
    }
}

fn read_u16(bytes: &[u8], base: usize, delta: usize) -> (r: Result<u16, Error>)
    ensures
        r == spec_read_u16(bytes@, base + delta),
        r matches Ok(v) ==> v as nat == le16(bytes@, base + delta),
{
    let len = bytes.len();
    if base > len || delta > len - base || len - base - delta < 2 {
        return Err(Error::Truncated("u16"));
    }
    let c = base + delta;
    proof {
        lemma_le_bounds(bytes@, c as int);
    }
    Ok((bytes[c] as u16) + (bytes[c + 1] as u16) * 256)
}

fn read_u32(bytes: &[u8], base: usize, delta: usize) -> (r: Result<u32, Error>)
    ensures
        r == spec_read_u32(bytes@, base + delta),
        r matches Ok(v) ==> v as nat == le32(bytes@, base + delta),
{
    let len = bytes.len();
    if base > len || delta > len - base || len - base - delta < 4 {
        return Err(Error::Truncated("u32"));
    }
    let c = base + delta;
    proof {
        lemma_le_bounds(bytes@, c as int);
        lemma_le_bounds(bytes@, c + 2);
    }
    let lo = (bytes[c] as u32) + (bytes[c + 1] as u32) * 256;
    let hi = (bytes[c + 2] as u32) + (bytes[c + 3] as u32) * 256;
    Ok(lo + hi * 65536)
}

// ───────────────────────────── entries and packages ─────────────────────────────

/// One member of a package, as listed in the ZIP central directory.
#[derive(Debug, Clone)]
pub struct Entry {
    /// Package-relative path exactly as stored in the ZIP central directory.
    pub path: String,
    /// ZIP compression method from the central directory record.
    pub compression_method: u16,
    /// Compressed size recorded for the entry.
    pub compressed_size: u32,
    /// Uncompressed size recorded for the entry.
    pub uncompressed_size: u32,
    pub(crate) local_header_offset: u32,
}

/// The mathematical content of an [`Entry`].
pub struct EntryView {
    pub path: Seq<char>,
    pub compression_method: u16,
    pub compressed_size: u32,
    pub uncompressed_size: u32,
    pub local_header_offset: u32,
}

impl View for Entry {
    type V = EntryView;

    closed spec fn view(&self) -> EntryView {
        EntryView {
            path: self.path@,
            compression_method: self.compression_method,
            compressed_size: self.compressed_size,
            uncompressed_size: self.uncompressed_size,
            local_header_offset: self.local_header_offset,
        }
    }
}

impl Entry {
    /// The entry's path.
    pub(crate) fn path_str(&self) -> (r: &str)
        ensures
            r@ == self@.path,
    {
        self.path.as_str()
    }

    /// A copy of the entry's path.
    pub(crate) fn path_string(&self) -> (r: String)
        ensures
            r@ == self@.path,
    {
        self.path.clone()
    }
}

/// A parsed iWork package: the raw ZIP bytes and its central directory.
#[derive(Debug, Clone)]
pub struct Package {
    bytes: Vec<u8>,
    entries: Vec<Entry>,
}

/// The mathematical content of a [`Package`].
pub struct PackageView {
    pub bytes: Seq<u8>,
    pub entries: Seq<EntryView>,
}

impl View for Package {
    type V = PackageView;

    closed spec fn view(&self) -> PackageView {
        PackageView { bytes: self.bytes@, entries: self.entries@.map_values(|e: Entry| e@) }
    }
}

/// How a package's layout relates to the layouts this crate reads.
#[derive(Debug, Clone, Copy, PartialEq, Eq)]
pub enum PackageSupport {
    SupportedDirectIndexEntries,
    UnsupportedLegacyIndexZip,
    UnsupportedUnknownLayout,
}

impl Default for PackageSupport {
    fn default() -> (r: Self)
        ensures
            r == PackageSupport::UnsupportedUnknownLayout,
    {
        PackageSupport::UnsupportedUnknownLayout
    }
}

// ───────────────────────────── parsing ─────────────────────────────

/// Searching downwards from `o` to `start` for the EOCD signature.
pub open spec fn eocd_search(bytes: Seq<u8>, o: int, start: int) -> Option<int>
    decreases o - start + 1,
{
    if o < start || o < 0 {
        None
    } else if o + 4 <= bytes.len() && le32(bytes, o) == EOCD_SIGNATURE {
        Some(o)
    } else {
        eocd_search(bytes, o - 1, start)
    }
}

/// A found EOCD signature lies inside the bytes.
pub proof fn lemma_eocd_search_in(bytes: Seq<u8>, o: int, start: int)
    ensures
        eocd_search(bytes, o, start) matches Some(x) ==> 0 <= x && x + 4 <= bytes.len() && le32(bytes, x)
            == EOCD_SIGNATURE,
    decreases o - start + 1,
{
    if !(o < start || o < 0) && !(o + 4 <= bytes.len() && le32(bytes, o) == EOCD_SIGNATURE) {
        lemma_eocd_search_in(bytes, o - 1, start);
    }
}

/// `a - b`, or `0` when `b > a`.
pub open spec fn sat_sub(a: int, b: int) -> int {
    if a > b {
        a - b
    } else {
        0
    }
}

/// The offset of the end-of-central-directory record: the last position in
/// the final `22 + 65535` bytes where its signature stands.
pub open spec fn spec_find_eocd(bytes: Seq<u8>) -> Option<int> {
    eocd_search(bytes, sat_sub(bytes.len() as int, 4), sat_sub(bytes.len() as int, 65557))
}

/// Parsing the central-directory record at `c`: the entry and the position
/// of the next record.
pub open spec fn spec_cd_record(bytes: Seq<u8>, c: int) -> Result<(EntryView, int), Error> {
    if c + 4 > bytes.len() {
        Err(Error::Truncated("u32"))
    } else if le32(bytes, c) != CENTRAL_DIRECTORY_SIGNATURE {
        Err(Error::InvalidCentralDirectory)
    } else if c + 12 > bytes.len() {
        Err(Error::Truncated("u16"))
    } else if c + 28 > bytes.len() {
        Err(Error::Truncated("u32"))
    } else if c + 34 > bytes.len() {
        Err(Error::Truncated("u16"))
    } else if c + 46 > bytes.len() {
        Err(Error::Truncated("u32"))
    } else {
        let name_start = c + 46;
        let name_end = name_start + le16(bytes, c + 28);
        if name_end > bytes.len() {
            Err(Error::InvalidCentralDirectory)
        } else {
            let name = bytes.subrange(name_start, name_end);
            if !valid_utf8(name) {
                Err(Error::InvalidUtf8)
            } else {
                let next = name_end + le16(bytes, c + 30) + le16(bytes, c + 32);
                if next > usize::MAX {
                    Err(Error::InvalidCentralDirectory)
                } else {
                    Ok(
                        (
                            EntryView {
                                path: decode_utf8(name),
                                compression_method: le16(bytes, c + 10) as u16,
                                compressed_size: le32(bytes, c + 20) as u32,
                                uncompressed_size: le32(bytes, c + 24) as u32,
                                local_header_offset: le32(bytes, c + 42) as u32,
                            },
                            next,
                        ),
                    )
                }
            }
        }
    }
}

/// Parsing `k` central-directory records from `c`, after the entries `acc`.
pub open spec fn spec_cd_entries(bytes: Seq<u8>, c: int, k: nat, acc: Seq<EntryView>) -> Result<Seq<EntryView>, Error>
    decreases k,
{
    if k == 0 {
        Ok(acc)
    } else {
        match spec_cd_record(bytes, c) {
            Err(e) => Err(e),
            Ok((entry, next)) => spec_cd_entries(bytes, next, (k - 1) as nat, acc.push(entry)),
        }
    }
}

/// Parsing a package: the leading local-file signature, the EOCD record, and
/// the central directory it points to.
pub open spec fn spec_package_entries(bytes: Seq<u8>) -> Result<Seq<EntryView>, Error> {
    if bytes.len() < 4 || le32(bytes, 0) != LOCAL_FILE_SIGNATURE {
        Err(Error::NotAZipArchive)
    } else {
        match spec_find_eocd(bytes) {
            None => Err(Error::MissingEndOfCentralDirectory),
            Some(o) => {
                if o + 12 > bytes.len() {
                    Err(Error::Truncated("u16"))
                } else if o + 20 > bytes.len() {
                    Err(Error::Truncated("u32"))
                } else if le32(bytes, o + 16) + le32(bytes, o + 12) > bytes.len() {
                    Err(Error::InvalidCentralDirectory)
                } else {
                    spec_cd_entries(bytes, le32(bytes, o + 16) as int, le16(bytes, o + 10), seq![])
                }
            },
        }
    }
}

fn find_eocd(bytes: &[u8]) -> (r: Option<usize>)
    ensures
        match spec_find_eocd(bytes@) {
            Some(o) => r == Some(o as usize),
            None => r is None,
        },
{
    let len = bytes.len();
    let start: usize = if len > 22 + 65535 { len - (22 + 65535) } else { 0 };
    let mut offset: usize = if len > 4 { len - 4 } else { 0 };
    loop
        invariant
            offset <= len,
            start <= len,
            len == bytes@.len(),
            spec_find_eocd(bytes@) == eocd_search(bytes@, offset as int, start as int),
        decreases offset,
    {
        if offset < start {
            return None;
        }
        if len - offset >= 4 {
            if let Ok(sig) = read_u32(bytes, offset, 0) {
                if sig == EOCD_SIGNATURE {
                    return Some(offset);
                }
            }
        }
        if offset == 0 {
            assert(eocd_search(bytes@, -1, start as int) is None);
            return None;
        }
        offset = offset - 1;
    }
}

fn parse_cd_record(bytes: &[u8], cursor: usize) -> (r: Result<(Entry, usize), Error>)
    ensures
        match spec_cd_record(bytes@, cursor as int) {
            Ok((e, next)) => r matches Ok((x, n)) && x@ == e && n == next,
            Err(e) => r matches Err(x) && x == e,
        },
{
    if read_u32(bytes, cursor, 0)? != CENTRAL_DIRECTORY_SIGNATURE {
        return Err(Error::InvalidCentralDirectory);
    }
    let compression_method = read_u16(bytes, cursor, 10)?;
    let compressed_size = read_u32(bytes, cursor, 20)?;
    let uncompressed_size = read_u32(bytes, cursor, 24)?;
    let file_name_length = read_u16(bytes, cursor, 28)? as usize;
    let extra_length = read_u16(bytes, cursor, 30)? as usize;
    let comment_length = read_u16(bytes, cursor, 32)? as usize;
    let local_header_offset = read_u32(bytes, cursor, 42)?;
    let total = bytes.len();
    assert(cursor + 46 <= total);
    let name_start = cursor + 46;
    let name_end = match name_start.checked_add(file_name_length) {
        Some(e) => e,
        None => return Err(Error::InvalidCentralDirectory),
    };
    if name_end > bytes.len() {
        return Err(Error::InvalidCentralDirectory);
    }
    let path = match string_from_utf8(copy_bytes(&bytes[name_start..name_end])) {
        Some(p) => p,
        None => return Err(Error::InvalidUtf8),
    };
    let next = match name_end.checked_add(extra_length) {
        Some(v) => match v.checked_add(comment_length) {
            Some(w) => w,
            None => return Err(Error::InvalidCentralDirectory),
        },
        None => return Err(Error::InvalidCentralDirectory),
    };
    Ok(
        (
            Entry { path, compression_method, compressed_size, uncompressed_size, local_header_offset },
            next,
        ),
    )
}

impl Package {
    /// Parses an iWork package from raw bytes, validating the outer ZIP
    /// structure and recording the central-directory metadata.
    pub fn from_bytes(bytes: Vec<u8>) -> (r: Result<Package, Error>)
        ensures
            match spec_package_entries(bytes@) {
                Ok(es) => r matches Ok(p) && p@.entries == es && p@.bytes == bytes@,
                Err(e) => r matches Err(x) && x == e,
            },
    {
        if bytes.len() < 4 {
            return Err(Error::NotAZipArchive);
        }
        match read_u32(bytes.as_slice(), 0, 0) {
            Ok(sig) => {
                if sig != LOCAL_FILE_SIGNATURE {
                    return Err(Error::NotAZipArchive);
                }
            },
            Err(_) => return Err(Error::NotAZipArchive),
        }
        proof {
            lemma_eocd_search_in(bytes@, sat_sub(bytes@.len() as int, 4), sat_sub(bytes@.len() as int, 65557));
        }
        let eocd_offset = match find_eocd(bytes.as_slice()) {
            Some(o) => o,
            None => return Err(Error::MissingEndOfCentralDirectory),
        };
        let entry_count = read_u16(bytes.as_slice(), eocd_offset, 10)? as usize;
        let central_directory_size = read_u32(bytes.as_slice(), eocd_offset, 12)? as usize;
        let central_directory_offset = read_u32(bytes.as_slice(), eocd_offset, 16)? as usize;
        let central_directory_end = match central_directory_offset.checked_add(central_directory_size) {
            Some(e) => e,
            None => return Err(Error::InvalidCentralDirectory),
        };
        if central_directory_end > bytes.len() {
            return Err(Error::InvalidCentralDirectory);
        }
        let mut entries: Vec<Entry> = Vec::new();
        let mut cursor = central_directory_offset;
        let mut remaining = entry_count;
        let ghost b = bytes@;
        assert(entries@.map_values(|e: Entry| e@) =~= seq![]);
        while remaining > 0
            invariant
                b == bytes@,
                spec_package_entries(b) == spec_cd_entries(
                    b,
                    cursor as int,
                    remaining as nat,
                    entries@.map_values(|e: Entry| e@),
                ),
            decreases remaining,
        {
            let (entry, next) = parse_cd_record(bytes.as_slice(), cursor)?;
            let ghost before = entries@.map_values(|e: Entry| e@);
            entries.push(entry);
            assert(entries@.map_values(|e: Entry| e@) =~= before.push(entry@));
            cursor = next;
            remaining = remaining - 1;
        }
        Ok(Package { bytes, entries })
    }

    /// The central-directory entries discovered in the package.
    pub fn entries(&self) -> (r: &[Entry])
        ensures
            r@.map_values(|e: Entry| e@) == self@.entries,
    {
        self.entries.as_slice()
    }
}


// ───────────────────────────── layout and entry data ─────────────────────────────

/// The directory prefix `Index/` of current iWork packages.
pub open spec fn index_dir() -> Seq<char> {
    seq!['I', 'n', 'd', 'e', 'x', '/']
}

/// The single `Index.zip` member of legacy packages.
pub open spec fn index_zip() -> Seq<char> {
    seq!['I', 'n', 'd', 'e', 'x', '.', 'z', 'i', 'p']
}

/// The layout a list of entries has: direct `Index/` members, a legacy
/// `Index.zip`, or neither.
pub open spec fn spec_support(es: Seq<EntryView>) -> PackageSupport {
    if exists|i: int| 0 <= i < es.len() && has_prefix(#[trigger] es[i].path, index_dir()) {
        PackageSupport::SupportedDirectIndexEntries
    } else if exists|i: int| 0 <= i < es.len() && #[trigger] es[i].path == index_zip() {
        PackageSupport::UnsupportedLegacyIndexZip
    } else {
        PackageSupport::UnsupportedUnknownLayout
    }
}

/// The first entry with the given path.
pub open spec fn find_entry(es: Seq<EntryView>, path: Seq<char>) -> Option<EntryView>
    decreases es.len(),
{
    if es.len() == 0 {
        None
    } else if es[0].path == path {
        Some(es[0])
    } else {
        find_entry(es.drop_first(), path)
    }
}

/// The stored (possibly compressed) bytes of an entry, located through its
/// local file header.
pub open spec fn spec_entry_data(bytes: Seq<u8>, e: EntryView) -> Result<Seq<u8>, Error> {
    let o = e.local_header_offset as int;
    if o + 4 > bytes.len() {
        Err(Error::Truncated("u32"))
    } else if le32(bytes, o) != LOCAL_FILE_SIGNATURE {
        Err(Error::InvalidLocalFileHeader)
    } else if o + 30 > bytes.len() {
        Err(Error::Truncated("u16"))
    } else {
        let data_start = o + 30 + le16(bytes, o + 26) + le16(bytes, o + 28);
        let data_end = data_start + e.compressed_size;
        if data_end > usize::MAX {
            Err(Error::InvalidLocalFileHeader)
        } else if data_end > bytes.len() {
            Err(Error::Truncated("file contents"))
        } else {
            Ok(bytes.subrange(data_start, data_end))
        }
    }
}

/// What the deflate decoder yields for `data` when its output may not
/// exceed `limit` bytes (`miniz_oxide`'s `decompress_to_vec_with_limit`).
pub uninterp spec fn raw_inflate(data: Seq<u8>, limit: usize) -> Option<Seq<u8>>;

/// Calls `miniz_oxide::inflate::decompress_to_vec_with_limit` on raw deflate
/// data. Its result is named [`raw_inflate`]; as its documentation says, the
/// output never grows past `limit` bytes.
#[verifier::external_body]
fn inflate_with_limit(data: &[u8], limit: usize) -> (r: Option<Vec<u8>>)
    ensures
        match r {
            Some(v) => raw_inflate(data@, limit) == Some(v@) && v@.len() <= limit,
            None => raw_inflate(data@, limit) is None,
        },
{
    miniz_oxide::inflate::decompress_to_vec_with_limit(data, limit).ok()
}

/// Inflating a deflated entry: the decoder's output when it has exactly the
/// size the central directory records.
pub open spec fn spec_inflate(data: Seq<u8>, expected: usize) -> Option<Seq<u8>> {
    match raw_inflate(data, expected) {
        Some(v) => if v.len() == expected {
            Some(v)
        } else {
            None
        },
        None => None,
    }
}

fn inflate_raw(data: &[u8], expected_len: usize) -> (r: Option<Vec<u8>>)
    ensures
        match spec_inflate(data@, expected_len) {
            Some(v) => r matches Some(x) && x@ == v,
            None => r is None,
        },
{
    match inflate_with_limit(data, expected_len) {
        Some(v) => if v.len() == expected_len {
            Some(v)
        } else {
            None
        },
        None => None,
    }
}

/// The outcome of reading one package member.
pub enum EntryReadView {
    /// The member's bytes.
    Data(Seq<u8>),
    /// A structural error.
    Failed(Error),
    /// The deflated data could not be inflated.
    Undecodable,
    /// The member uses another compression method.
    Unsupported(u16),
    /// No member has the path.
    Missing,
}

/// Reading the member at `path`: the first entry with that path, its data,
/// and its decompression.
pub open spec fn spec_entry_outcome(p: PackageView, path: Seq<char>) -> EntryReadView {
    match find_entry(p.entries, path) {
        None => EntryReadView::Missing,
        Some(e) => match spec_entry_data(p.bytes, e) {
            Err(x) => EntryReadView::Failed(x),
            Ok(data) => {
                if e.compression_method == STORED_COMPRESSION_METHOD {
                    EntryReadView::Data(data)
                } else if e.compression_method == DEFLATE_COMPRESSION_METHOD {
                    match spec_inflate(data, e.uncompressed_size as usize) {
                        Some(v) => EntryReadView::Data(v),
                        None => EntryReadView::Undecodable,
                    }
                } else {
                    EntryReadView::Unsupported(e.compression_method)
                }
            },
        },
    }
}

/// `r` is what [`Package::entry_bytes`] answers for the outcome `o` of
/// reading `path`.
pub open spec fn entry_result_matches(r: Result<Vec<u8>, Error>, o: EntryReadView, path: Seq<char>) -> bool {
    match o {
        EntryReadView::Data(d) => r matches Ok(v) && v@ == d,
        EntryReadView::Failed(e) => r matches Err(x) && x == e,
        EntryReadView::Undecodable => r matches Err(Error::InvalidCompressedEntry { path: p }) && p@ == path,
        EntryReadView::Unsupported(m) => r matches Err(Error::UnsupportedCompression { path: p, method }) && p@
            == path && method == m,
        EntryReadView::Missing => r matches Err(Error::MissingEntry(p)) && p@ == path,
    }
}

impl Package {
    /// Classifies the package layout against the variants this crate recognizes.
    pub fn support(&self) -> (r: PackageSupport)
        ensures
            r == spec_support(self@.entries),
    {
        let index_prefix: [char; 6] = ['I', 'n', 'd', 'e', 'x', '/'];
        let legacy: [char; 9] = ['I', 'n', 'd', 'e', 'x', '.', 'z', 'i', 'p'];
        assert(index_prefix@ =~= index_dir());
        assert(legacy@ =~= index_zip());
        let ghost es = self@.entries;
        let mut i: usize = 0;
        while i < self.entries.len()
            invariant
                i <= self.entries@.len(),
                es == self@.entries,
                es.len() == self.entries@.len(),
                index_prefix@ == index_dir(),
                forall|j: int| 0 <= j < i ==> !has_prefix(#[trigger] es[j].path, index_dir()),
            decreases self.entries.len() - i,
        {
            assert(es[i as int] == self.entries@[i as int]@);
            let path = chars_of(self.entries[i].path.as_str());
            if chars_start_with(path.as_slice(), &index_prefix) {
                assert(has_prefix(es[i as int].path, index_dir()));
                return PackageSupport::SupportedDirectIndexEntries;
            }
            i = i + 1;
        }
        let mut k: usize = 0;
        while k < self.entries.len()
            invariant
                k <= self.entries@.len(),
                es == self@.entries,
                es.len() == self.entries@.len(),
                legacy@ == index_zip(),
                forall|j: int| 0 <= j < es.len() ==> !has_prefix(#[trigger] es[j].path, index_dir()),
                forall|j: int| 0 <= j < k ==> #[trigger] es[j].path != index_zip(),
            decreases self.entries.len() - k,
        {
            assert(es[k as int] == self.entries@[k as int]@);
            let path = chars_of(self.entries[k].path.as_str());
            if chars_equal(path.as_slice(), &legacy) {
                assert(es[k as int].path == index_zip());
                return PackageSupport::UnsupportedLegacyIndexZip;
            }
            k = k + 1;
        }
        PackageSupport::UnsupportedUnknownLayout
    }

    fn entry_data(&self, entry: &Entry) -> (r: Result<Vec<u8>, Error>)
        ensures
            match spec_entry_data(self@.bytes, entry@) {
                Ok(d) => r matches Ok(v) && v@ == d,
                Err(e) => r matches Err(x) && x == e,
            },
    {
        let offset = entry.local_header_offset as usize;
        let sig = read_u32(self.bytes.as_slice(), offset, 0)?;
        if sig != LOCAL_FILE_SIGNATURE {
            return Err(Error::InvalidLocalFileHeader);
        }
        let file_name_length = read_u16(self.bytes.as_slice(), offset, 26)? as usize;
        let extra_length = read_u16(self.bytes.as_slice(), offset, 28)? as usize;
        let total = self.bytes.len();
        assert(offset + 30 <= total);
        let data_start = match (offset + 30).checked_add(file_name_length) {
            Some(v) => match v.checked_add(extra_length) {
                Some(w) => w,
                None => return Err(Error::InvalidLocalFileHeader),
            },
            None => return Err(Error::InvalidLocalFileHeader),
        };
        let data_end = match data_start.checked_add(entry.compressed_size as usize) {
            Some(v) => v,
            None => return Err(Error::InvalidLocalFileHeader),
        };
        if data_end > self.bytes.len() {
            return Err(Error::Truncated("file contents"));
        }
        Ok(copy_bytes(&self.bytes.as_slice()[data_start..data_end]))
    }

    /// Returns the bytes of a package member: stored members as they are,
    /// deflated members inflated to their recorded size.
    pub fn entry_bytes(&self, path: &str) -> (r: Result<Vec<u8>, Error>)
        ensures
            entry_result_matches(r, spec_entry_outcome(self@, path@), path@),
    {
        let target = path.to_owned();
        let ghost es = self@.entries;
        let mut i: usize = 0;
        assert(es.skip(0) =~= es);
        while i < self.entries.len()
            invariant
                i <= self.entries@.len(),
                es == self@.entries,
                es.len() == self.entries@.len(),
                target@ == path@,
                find_entry(es, path@) == find_entry(es.skip(i as int), path@),
            decreases self.entries.len() - i,
        {
            let entry = &self.entries[i];
            assert(es.skip(i as int)[0] == entry@);
            assert(es.skip(i as int).drop_first() =~= es.skip(i + 1));
            if entry.path == target {
                let data = self.entry_data(entry)?;
                if entry.compression_method == STORED_COMPRESSION_METHOD {
                    return Ok(data);
                } else if entry.compression_method == DEFLATE_COMPRESSION_METHOD {
                    return match inflate_raw(data.as_slice(), entry.uncompressed_size as usize) {
                        Some(v) => Ok(v),
                        None => Err(Error::InvalidCompressedEntry { path: entry.path.clone() }),
                    };
                } else {
                    return Err(
                        Error::UnsupportedCompression {
                            path: entry.path.clone(),
                            method: entry.compression_method,
                        },
                    );
                }
            }
            i = i + 1;
        }
        assert(es.skip(i as int) =~= seq![]);
        Err(Error::MissingEntry(target))
    }
}


// ───────────────────────────── CRC-32 ─────────────────────────────

/// One bit step of the reflected CRC-32 (polynomial `0xEDB88320`).
pub open spec fn crc_bit_step(c: u32) -> u32 {
    if c & 1 == 1 {
        (c >> 1u32) ^ 0xEDB8_8320u32
    } else {
        c >> 1u32
    }
}

/// `k` bit steps.
pub open spec fn crc_bits(c: u32, k: nat) -> u32
    decreases k,
{
    if k == 0 {
        c
    } else {
        crc_bits(crc_bit_step(c), (k - 1) as nat)
    }
}

/// The CRC register after folding in `bytes`, starting from `c`.
pub open spec fn crc_fold(c: u32, bytes: Seq<u8>) -> u32
    decreases bytes.len(),
{
    if bytes.len() == 0 {
        c
    } else {
        crc_fold(crc_bits(c ^ (bytes[0] as u32), 8), bytes.drop_first())
    }
}

/// The CRC-32 checksum that ZIP records for `bytes`.
pub open spec fn crc32(bytes: Seq<u8>) -> u32 {
    crc_fold(0xFFFF_FFFFu32, bytes) ^ 0xFFFF_FFFFu32
}

fn crc32_of(bytes: &[u8]) -> (r: u32)
    ensures
        r == crc32(bytes@),
{
    let mut c: u32 = 0xFFFF_FFFF;
    let mut i: usize = 0;
    assert(bytes@.skip(0) =~= bytes@);
    while i < bytes.len()
        invariant
            i <= bytes@.len(),
            crc_fold(0xFFFF_FFFFu32, bytes@) == crc_fold(c, bytes@.skip(i as int)),
        decreases bytes.len() - i,
    {
        let mut x: u32 = c ^ (bytes[i] as u32);
        let ghost x0 = x;
        let mut k: usize = 0;
        while k < 8
            invariant
                k <= 8,
                crc_bits(x0, 8) == crc_bits(x, (8 - k) as nat),
            decreases 8 - k,
        {
            x = if x & 1 == 1 { (x >> 1) ^ 0xEDB8_8320 } else { x >> 1 };
            k = k + 1;
        }
        assert(bytes@.skip(i as int)[0] == bytes@[i as int]);
        assert(bytes@.skip(i as int).drop_first() =~= bytes@.skip(i + 1));
        c = x;
        i = i + 1;
    }
    c ^ 0xFFFF_FFFF
}

// ───────────────────────────── writing ─────────────────────────────

/// The two little-endian bytes of `x`.
pub open spec fn u16_bytes(x: nat) -> Seq<u8> {
    seq![(x % 256) as u8, ((x / 256) % 256) as u8]
}

/// The four little-endian bytes of `x`.
pub open spec fn u32_bytes(x: nat) -> Seq<u8> {
    seq![(x % 256) as u8, ((x / 256) % 256) as u8, ((x / 65536) % 256) as u8, ((x / 16777216) % 256) as u8]
}

/// The DOS date written for every entry (1980-01-01).
pub open spec fn dos_date() -> nat {
    0x21
}

/// The local file header and data of a stored member.
#[verifier::opaque]
pub open spec fn local_record(name: Seq<u8>, data: Seq<u8>) -> Seq<u8> {
    u32_bytes(LOCAL_FILE_SIGNATURE as nat) + u16_bytes(20) + u16_bytes(0) + u16_bytes(0) + u16_bytes(0) + u16_bytes(
        dos_date(),
    ) + u32_bytes(crc32(data) as nat) + u32_bytes(data.len()) + u32_bytes(data.len()) + u16_bytes(name.len())
        + u16_bytes(0) + name + data
}

/// The central-directory record of a stored member whose local header is at `offset`.
#[verifier::opaque]
pub open spec fn central_record(name: Seq<u8>, data: Seq<u8>, offset: nat) -> Seq<u8> {
    u32_bytes(CENTRAL_DIRECTORY_SIGNATURE as nat) + u16_bytes(20) + u16_bytes(20) + u16_bytes(0) + u16_bytes(0)
        + u16_bytes(0) + u16_bytes(dos_date()) + u32_bytes(crc32(data) as nat) + u32_bytes(data.len()) + u32_bytes(
        data.len(),
    ) + u16_bytes(name.len()) + u16_bytes(0) + u16_bytes(0) + u16_bytes(0) + u16_bytes(0) + u32_bytes(0)
        + u32_bytes(offset) + name
}

/// The members of a writer as (UTF-8 name, data) pairs.
pub open spec fn member_bytes(es: Seq<(Seq<char>, Seq<u8>)>) -> Seq<(Seq<u8>, Seq<u8>)> {
    es.map_values(|e: (Seq<char>, Seq<u8>)| (encode_utf8(e.0), e.1))
}

/// The local records of `ms`, in order.
pub open spec fn spec_locals(ms: Seq<(Seq<u8>, Seq<u8>)>) -> Seq<u8>
    decreases ms.len(),
{
    if ms.len() == 0 {
        seq![]
    } else {
        spec_locals(ms.drop_last()) + local_record(ms.last().0, ms.last().1)
    }
}

/// The central-directory records of `ms`, each pointing at its local record.
pub open spec fn spec_central(ms: Seq<(Seq<u8>, Seq<u8>)>) -> Seq<u8>
    decreases ms.len(),
{
    if ms.len() == 0 {
        seq![]
    } else {
        spec_central(ms.drop_last()) + central_record(
            ms.last().0,
            ms.last().1,
            spec_locals(ms.drop_last()).len(),
        )
    }
}

/// The end-of-central-directory record for `n` members.
#[verifier::opaque]
pub open spec fn eocd_record(n: nat, cd_size: nat, cd_offset: nat) -> Seq<u8> {
    u32_bytes(EOCD_SIGNATURE as nat) + u16_bytes(0) + u16_bytes(0) + u16_bytes(n) + u16_bytes(n) + u32_bytes(cd_size)
        + u32_bytes(cd_offset) + u16_bytes(0)
}

/// The ZIP file written for `ms`: local records, central directory, EOCD.
pub open spec fn spec_zip(ms: Seq<(Seq<u8>, Seq<u8>)>) -> Seq<u8> {
    spec_locals(ms) + spec_central(ms) + eocd_record(ms.len(), spec_central(ms).len(), spec_locals(ms).len())
}

/// `ms` fits a plain (non-ZIP64) archive: at most 65535 members, names of at
/// most 65535 bytes, and every size and offset within 32 bits.
pub open spec fn zip_fits(ms: Seq<(Seq<u8>, Seq<u8>)>) -> bool {
    &&& ms.len() <= 0xFFFF
    &&& forall|i: int| 0 <= i < ms.len() ==> (#[trigger] ms[i]).0.len() <= 0xFFFF && ms[i].1.len() <= 0xFFFF_FFFF
        && spec_locals(ms.take(i)).len() <= 0xFFFF_FFFF
    &&& spec_locals(ms).len() <= 0xFFFF_FFFF
    &&& spec_central(ms).len() <= 0xFFFF_FFFF
}

proof fn lemma_u32_bytes(x: u32)
    ensures
        (x & 0xff) as u8 == (x % 256) as u8,
        ((x >> 8u32) & 0xff) as u8 == ((x / 256) % 256) as u8,
        ((x >> 16u32) & 0xff) as u8 == ((x / 65536) % 256) as u8,
        ((x >> 24u32) & 0xff) as u8 == ((x / 16777216) % 256) as u8,
{
    assert((x & 0xff) as u8 == (x % 256) as u8) by (bit_vector);
    assert(((x >> 8u32) & 0xff) as u8 == ((x / 256) % 256) as u8) by (bit_vector);
    assert(((x >> 16u32) & 0xff) as u8 == ((x / 65536) % 256) as u8) by (bit_vector);
    assert(((x >> 24u32) & 0xff) as u8 == ((x / 16777216) % 256) as u8) by (bit_vector);
}

fn push_u16(out: &mut Vec<u8>, x: u16)
    ensures
        final(out)@ == old(out)@ + u16_bytes(x as nat),
{
    let v = x as u32;
    proof {
        lemma_u32_bytes(v);
    }
    out.push((v & 0xff) as u8);
    out.push(((v >> 8) & 0xff) as u8);
    assert(out@ =~= old(out)@ + u16_bytes(x as nat));
}

fn push_u32(out: &mut Vec<u8>, x: u32)
    ensures
        final(out)@ == old(out)@ + u32_bytes(x as nat),
{
    proof {
        lemma_u32_bytes(x);
    }
    out.push((x & 0xff) as u8);
    out.push(((x >> 8) & 0xff) as u8);
    out.push(((x >> 16) & 0xff) as u8);
    out.push(((x >> 24) & 0xff) as u8);
    assert(out@ =~= old(out)@ + u32_bytes(x as nat));
}

fn write_local(out: &mut Vec<u8>, name: &[u8], data: &[u8], crc: u32)
    requires
        name@.len() <= 0xFFFF,
        data@.len() <= 0xFFFF_FFFF,
        crc == crc32(data@),
    ensures
        final(out)@ == old(out)@ + local_record(name@, data@),
{
    let size = data.len() as u32;
    push_u32(out, LOCAL_FILE_SIGNATURE);
    push_u16(out, 20);
    push_u16(out, 0);
    push_u16(out, 0);
    push_u16(out, 0);
    push_u16(out, 0x21);
    push_u32(out, crc);
    push_u32(out, size);
    push_u32(out, size);
    push_u16(out, name.len() as u16);
    push_u16(out, 0);
    extend_bytes(out, name);
    extend_bytes(out, data);
    reveal(local_record);
    assert(out@ =~= old(out)@ + local_record(name@, data@));
}

fn write_central(out: &mut Vec<u8>, name: &[u8], data: &[u8], crc: u32, offset: u32)
    requires
        name@.len() <= 0xFFFF,
        data@.len() <= 0xFFFF_FFFF,
        crc == crc32(data@),
    ensures
        final(out)@ == old(out)@ + central_record(name@, data@, offset as nat),
{
    let size = data.len() as u32;
    push_u32(out, CENTRAL_DIRECTORY_SIGNATURE);
    push_u16(out, 20);
    push_u16(out, 20);
    push_u16(out, 0);
    push_u16(out, 0);
    push_u16(out, 0);
    push_u16(out, 0x21);
    push_u32(out, crc);
    push_u32(out, size);
    push_u32(out, size);
    push_u16(out, name.len() as u16);
    push_u16(out, 0);
    push_u16(out, 0);
    push_u16(out, 0);
    push_u16(out, 0);
    push_u32(out, 0);
    push_u32(out, offset);
    extend_bytes(out, name);
    reveal(central_record);
    assert(out@ =~= old(out)@ + central_record(name@, data@, offset as nat));
}

fn write_eocd(out: &mut Vec<u8>, n: u16, cd_size: u32, cd_offset: u32)
    ensures
        final(out)@ == old(out)@ + eocd_record(n as nat, cd_size as nat, cd_offset as nat),
{
    push_u32(out, EOCD_SIGNATURE);
    push_u16(out, 0);
    push_u16(out, 0);
    push_u16(out, n);
    push_u16(out, n);
    push_u32(out, cd_size);
    push_u32(out, cd_offset);
    push_u16(out, 0);
    reveal(eocd_record);
    assert(out@ =~= old(out)@ + eocd_record(n as nat, cd_size as nat, cd_offset as nat));
}

/// Builds a package of stored members, in the order they were added.
pub struct PackageWriter {
    entries: Vec<(String, Vec<u8>)>,
}

impl View for PackageWriter {
    type V = Seq<(Seq<char>, Seq<u8>)>;

    closed spec fn view(&self) -> Seq<(Seq<char>, Seq<u8>)> {
        self.entries@.map_values(|e: (String, Vec<u8>)| (e.0@, e.1@))
    }
}

impl PackageWriter {
    /// A writer with no members.
    pub fn new() -> (r: PackageWriter)
        ensures
            r@ == Seq::<(Seq<char>, Seq<u8>)>::empty(),
    {
        let w = PackageWriter { entries: Vec::new() };
        assert(w@ =~= Seq::<(Seq<char>, Seq<u8>)>::empty());
        w
    }

    /// Adds a member; returns the writer so that calls can be chained.
    pub fn add_entry(&mut self, path: &str, bytes: Vec<u8>) -> (r: &mut PackageWriter)
        ensures
            r@ == old(self)@.push((path@, bytes@)),
            final(self)@ == final(r)@,
    {
        let ghost before = self@;
        self.entries.push((path.to_owned(), bytes));
        assert(self@ =~= before.push((path@, bytes@)));
        self
    }

    /// Writes the ZIP archive. Fails with
    /// [`Error::InvalidCentralDirectory`] when the members do not fit a
    /// plain ZIP archive (see [`zip_fits`]).
    #[verifier::spinoff_prover]
    #[verifier::rlimit(40)]
    pub fn finish(&self) -> (r: Result<Vec<u8>, Error>)
        ensures
            zip_fits(member_bytes(self@)) ==> (r matches Ok(v) && v@ == spec_zip(member_bytes(self@))),
            !zip_fits(member_bytes(self@)) ==> r matches Err(Error::InvalidCentralDirectory),
    {
        let ghost ms = member_bytes(self@);
        let n = self.entries.len();
        if n > 0xFFFF {
            return Err(Error::InvalidCentralDirectory);
        }
        let mut out: Vec<u8> = Vec::new();
        let mut central: Vec<u8> = Vec::new();
        let mut i: usize = 0;
        assert(ms.take(0) =~= seq![]);
        while i < n
            invariant
                i <= n,
                n == self.entries@.len(),
                n <= 0xFFFF,
                ms == member_bytes(self@),
                ms.len() == n,
                out@ == spec_locals(ms.take(i as int)),
                central@ == spec_central(ms.take(i as int)),
                forall|j: int| 0 <= j < i ==> (#[trigger] ms[j]).0.len() <= 0xFFFF && ms[j].1.len() <= 0xFFFF_FFFF
                    && spec_locals(ms.take(j)).len() <= 0xFFFF_FFFF,
            decreases n - i,
        {
            let (path, data) = &self.entries[i];
            let name = path.as_str().as_bytes();
            assert(ms[i as int] == (name@, data@));
            let offset = out.len();
            if offset > 0xFFFF_FFFF || name.len() > 0xFFFF || data.len() > 0xFFFF_FFFF {
                assert(!zip_fits(ms));
                return Err(Error::InvalidCentralDirectory);
            }
            let crc = crc32_of(data.as_slice());
            write_local(&mut out, name, data.as_slice(), crc);
            write_central(&mut central, name, data.as_slice(), crc, offset as u32);
            proof {
                let t = ms.take(i + 1);
                assert(t.drop_last() =~= ms.take(i as int));
                assert(t.last() == ms[i as int]);
                assert(out@ =~= spec_locals(t));
                assert(central@ =~= spec_central(t));
            }
            i = i + 1;
        }
        assert(ms.take(n as int) =~= ms);
        let cd_offset = out.len();
        let cd_size = central.len();
        if cd_offset > 0xFFFF_FFFF || cd_size > 0xFFFF_FFFF {
            return Err(Error::InvalidCentralDirectory);
        }
        extend_bytes(&mut out, central.as_slice());
        write_eocd(&mut out, n as u16, cd_size as u32, cd_offset as u32);
        assert(out@ =~= spec_zip(ms));
        Ok(out)
    }
}


// ───────────────────────────── metadata and inspection ─────────────────────────────

/// `r` carries the error that reading a member with outcome `o` gives; an
/// outcome with data gives no error.
pub open spec fn entry_error_matches<T>(r: Result<T, Error>, o: EntryReadView, path: Seq<char>) -> bool {
    match o {
        EntryReadView::Data(_) => false,
        EntryReadView::Failed(e) => r matches Err(x) && x == e,
        EntryReadView::Undecodable => r matches Err(Error::InvalidCompressedEntry { path: p }) && p@ == path,
        EntryReadView::Unsupported(m) => r matches Err(Error::UnsupportedCompression { path: p, method }) && p@
            == path && method == m,
        EntryReadView::Missing => r matches Err(Error::MissingEntry(p)) && p@ == path,
    }
}

/// The path of the metadata property list.
pub open spec fn properties_path() -> Seq<char> {
    "Metadata/Properties.plist"@
}

/// The path of the document stylesheet archive.
pub open spec fn stylesheet_path() -> Seq<char> {
    "Index/DocumentStylesheet.iwa"@
}

/// Reading the package metadata: the property list member, parsed.
pub open spec fn spec_properties(p: PackageView) -> Result<PlistView, Error> {
    match spec_entry_outcome(p, properties_path()) {
        EntryReadView::Data(d) => spec_parse_properties(d),
        _ => Err(Error::InvalidPlist("unreadable")),
    }
}

/// `r` is what reading the metadata of `p` answers.
pub open spec fn properties_result_matches<T>(r: Result<T, Error>, p: PackageView) -> bool {
    match spec_entry_outcome(p, properties_path()) {
        EntryReadView::Data(d) => match spec_parse_properties(d) {
            Ok(_) => true,
            Err(e) => r matches Err(x) && x == e,
        },
        o => entry_error_matches(r, o, properties_path()),
    }
}

/// The entries whose file extension is `iwa` in any ASCII case.
pub open spec fn spec_iwa_count(es: Seq<EntryView>) -> nat
    decreases es.len(),
{
    if es.len() == 0 {
        0
    } else {
        spec_iwa_count(es.drop_last()) + if (match spec_extension(es.last().path) {
            Some(e) => ascii_lowercase(e) == "iwa"@,
            None => false,
        }) {
            1nat
        } else {
            0nat
        }
    }
}

/// The keywords counted in the stylesheet archive.
pub open spec fn style_keywords() -> Seq<Seq<char>> {
    seq!["bold"@, "italic"@, "underline"@, "strikethrough"@, "font"@]
}

/// `r` is the report that inspecting `p` under the name `path` answers.
pub open spec fn inspection_matches(r: Result<InspectionReport, Error>, p: PackageView, path: Seq<char>) -> bool {
    &&& properties_result_matches(r, p)
    &&& spec_properties(p) is Ok ==> match spec_entry_outcome(p, stylesheet_path()) {
        EntryReadView::Data(style) => r matches Ok(report) && report.path@ == path && report.kind == spec_kind_of(path)
            && report.support == spec_support(p.entries) && report.properties@ == spec_properties(p)->Ok_0
            && report.entry_count == p.entries.len() && report.iwa_count == spec_iwa_count(p.entries)
            && report.style_keyword_hits@.map_values(|e: (String, usize)| (e.0@, e.1)) == keyword_counts(
            ascii_lowercase(lossy_text(style)),
            style_keywords(),
            5,
        ),
        o => entry_error_matches(r, o, stylesheet_path()),
    }
}

impl Package {
    /// Reads and parses `Metadata/Properties.plist`.
    pub fn properties(&self) -> (r: Result<PropertiesPlist, Error>)
        ensures
            properties_result_matches(r, self@),
            spec_properties(self@) matches Ok(p) ==> (r matches Ok(x) && x@ == p),
    {
        let bytes = self.entry_bytes("Metadata/Properties.plist")?;
        parse_properties_plist(bytes.as_slice())
    }

    fn count_iwa_entries(&self) -> (r: usize)
        ensures
            r == spec_iwa_count(self@.entries),
    {
        let ghost es = self@.entries;
        let mut count: usize = 0;
        let mut i: usize = 0;
        let iwa = chars_of("iwa");
        assert(es.take(0) =~= seq![]);
        while i < self.entries.len()
            invariant
                i <= self.entries@.len(),
                es == self@.entries,
                es.len() == self.entries@.len(),
                iwa@ == "iwa"@,
                count == spec_iwa_count(es.take(i as int)),
                count <= i,
            decreases self.entries.len() - i,
        {
            assert(es[i as int] == self.entries@[i as int]@);
            let path = chars_of(self.entries[i].path.as_str());
            let hit = match extension_of(path.as_slice()) {
                Some(ext) => chars_equal(to_ascii_lowercase(ext.as_slice()).as_slice(), iwa.as_slice()),
                None => false,
            };
            assert(es.take(i + 1).drop_last() =~= es.take(i as int));
            if hit {
                count = count + 1;
            }
            i = i + 1;
        }
        assert(es.take(i as int) =~= es);
        count
    }

    /// Produces a small report: the kind named by `path`'s extension, the
    /// package layout, its metadata, entry counts, and hits of style
    /// keywords in `Index/DocumentStylesheet.iwa` read as text.
    pub fn inspect(&self, path: String) -> (r: Result<InspectionReport, Error>)
        ensures
            inspection_matches(r, self@, path@),
    {
        let properties = self.properties()?;
        let stylesheet = self.entry_bytes("Index/DocumentStylesheet.iwa")?;
        let keywords: [&str; 5] = ["bold", "italic", "underline", "strikethrough", "font"];
        assert(keywords@.map_values(|k: &str| k@) =~= style_keywords());
        let style_keyword_hits = count_keywords(stylesheet.as_slice(), &keywords);
        let kind = DocumentKind::from_path(path.as_str());
        Ok(
            InspectionReport {
                path,
                kind,
                support: self.support(),
                properties,
                entry_count: self.entries.len(),
                iwa_count: self.count_iwa_entries(),
                style_keyword_hits,
            },
        )
    }
}


// ───────────────────────────── reading archives ─────────────────────────────

/// Why loading a member as an archive failed: reading the member, or
/// decoding what was read.
pub enum LoadError {
    Entry(EntryReadView, Seq<char>),
    Failed(Error),
}

/// `r` carries the error described by `e`.
pub open spec fn load_error_matches<T>(r: Result<T, Error>, e: LoadError) -> bool {
    match e {
        LoadError::Entry(o, path) => entry_error_matches(r, o, path),
        LoadError::Failed(x) => r matches Err(y) && y == x,
    }
}

/// Reading the member at `path` and decoding it as an `.iwa` archive.
pub open spec fn spec_read_archive(p: PackageView, path: Seq<char>) -> Result<crate::iwa::ArchiveView, LoadError> {
    match spec_entry_outcome(p, path) {
        EntryReadView::Data(d) => match crate::iwa::spec_decode_archive(d) {
            Ok(a) => Ok(a),
            Err(e) => Err(LoadError::Failed(e)),
        },
        o => Err(LoadError::Entry(o, path)),
    }
}

impl Package {
    /// Reads the member at `path` and decodes it as an `.iwa` archive.
    pub fn read_archive(&self, path: &str) -> (r: Result<crate::iwa::IwaArchive, Error>)
        ensures
            match spec_read_archive(self@, path@) {
                Ok(a) => r matches Ok(x) && x@ == a,
                Err(e) => load_error_matches(r, e),
            },
    {
        let bytes = self.entry_bytes(path)?;
        crate::iwa::IwaArchive::decode(bytes.as_slice())
    }
}

} // verus!
