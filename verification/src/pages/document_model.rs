//! The archives of a Pages package: four core archives and every other
//! archive under `Index/`.
use crate::error::Error;
use crate::inspect::{chars_less, chars_less_from};
use crate::iwa::{ArchiveView, IwaArchive};
use crate::package::{load_error_matches, spec_read_archive, EntryView, LoadError, Package, PackageView};
use crate::text::{chars_end_with, chars_equal, chars_of, chars_start_with, has_prefix, has_suffix};
use vstd::prelude::*;

verus! {

/// A decoded archive under `Index/` with its package path.
#[derive(Debug, Clone)]
pub struct IndexArchive {
    path: String,
    archive: IwaArchive,
}

impl View for IndexArchive {
    type V = (Seq<char>, ArchiveView);

    closed spec fn view(&self) -> (Seq<char>, ArchiveView) {
        (self.path@, self.archive@)
    }
}

impl IndexArchive {
    /// Package-relative path of the archive.
    pub fn path(&self) -> (r: &str)
        ensures
            r@ == self@.0,
    {
        self.path.as_str()
    }

    /// The decoded archive.
    pub fn archive(&self) -> (r: &IwaArchive)
        ensures
            r@ == self@.1,
    {
        &self.archive
    }
}

/// The core archives of a Pages package and its other index archives,
/// sorted by path.
#[derive(Debug, Clone)]
pub struct DocumentModel {
    document: IwaArchive,
    document_metadata: IwaArchive,
    metadata: IwaArchive,
    stylesheet: IwaArchive,
    index_archives: Vec<IndexArchive>,
}

/// The mathematical content of a [`DocumentModel`].
pub struct DocumentModelView {
    pub document: ArchiveView,
    pub document_metadata: ArchiveView,
    pub metadata: ArchiveView,
    pub stylesheet: ArchiveView,
    pub index_archives: Seq<(Seq<char>, ArchiveView)>,
}

impl View for DocumentModel {
    type V = DocumentModelView;

    closed spec fn view(&self) -> DocumentModelView {
        DocumentModelView {
            document: self.document@,
            document_metadata: self.document_metadata@,
            metadata: self.metadata@,
            stylesheet: self.stylesheet@,
            index_archives: self.index_archives@.map_values(|a: IndexArchive| a@),
        }
    }
}

/// An index archive path other than the four core archives.
pub open spec fn is_other_index_path(p: Seq<char>) -> bool {
    &&& has_prefix(p, "Index/"@)
    &&& has_suffix(p, ".iwa"@)
    &&& p != "Index/Document.iwa"@
    &&& p != "Index/DocumentMetadata.iwa"@
    &&& p != "Index/Metadata.iwa"@
    &&& p != "Index/DocumentStylesheet.iwa"@
}

/// Decoding the other index archives among `es`, in order; the first
/// failure fails all.
pub open spec fn index_archives_from(p: PackageView, es: Seq<EntryView>) -> Result<
    Seq<(Seq<char>, ArchiveView)>,
    LoadError,
>
    decreases es.len(),
{
    if es.len() == 0 {
        Ok(seq![])
    } else {
        let e = es[0];
        if !is_other_index_path(e.path) {
            index_archives_from(p, es.drop_first())
        } else {
            match spec_read_archive(p, e.path) {
                Err(x) => Err(x),
                Ok(a) => match index_archives_from(p, es.drop_first()) {
                    Err(x) => Err(x),
                    Ok(rest) => Ok(seq![(e.path, a)] + rest),
                },
            }
        }
    }
}

/// Inserting `x` after every archive whose path does not sort after its own.
pub open spec fn insert_index(xs: Seq<(Seq<char>, ArchiveView)>, x: (Seq<char>, ArchiveView), j: int) -> Seq<
    (Seq<char>, ArchiveView),
>
    decreases xs.len() - j,
{
    if j < 0 || j >= xs.len() {
        xs.push(x)
    } else if chars_less_from(x.0, xs[j].0, 0) {
        xs.insert(j, x)
    } else {
        insert_index(xs, x, j + 1)
    }
}

/// Archives stably sorted by path.
pub open spec fn sort_index(xs: Seq<(Seq<char>, ArchiveView)>) -> Seq<(Seq<char>, ArchiveView)>
    decreases xs.len(),
{
    if xs.len() == 0 {
        seq![]
    } else {
        insert_index(sort_index(xs.drop_last()), xs.last(), 0)
    }
}

/// Decoding a Pages package: the four core archives, in order, then the
/// other index archives sorted by path.
pub open spec fn spec_document_model(p: PackageView) -> Result<DocumentModelView, LoadError> {
    match spec_read_archive(p, "Index/Document.iwa"@) {
        Err(x) => Err(x),
        Ok(d) => match spec_read_archive(p, "Index/DocumentMetadata.iwa"@) {
            Err(x) => Err(x),
            Ok(dm) => match spec_read_archive(p, "Index/Metadata.iwa"@) {
                Err(x) => Err(x),
                Ok(m) => match spec_read_archive(p, "Index/DocumentStylesheet.iwa"@) {
                    Err(x) => Err(x),
                    Ok(st) => match index_archives_from(p, p.entries) {
                        Err(x) => Err(x),
                        Ok(xs) => Ok(
                            DocumentModelView {
                                document: d,
                                document_metadata: dm,
                                metadata: m,
                                stylesheet: st,
                                index_archives: sort_index(xs),
                            },
                        ),
                    },
                },
            },
        },
    }
}

fn insert_index_vec(xs: &mut Vec<IndexArchive>, x: IndexArchive)
    ensures
        final(xs)@.map_values(|a: IndexArchive| a@) == insert_index(
            old(xs)@.map_values(|a: IndexArchive| a@),
            x@,
            0,
        ),
{
    let ghost s = xs@.map_values(|a: IndexArchive| a@);
    let key = chars_of(x.path.as_str());
    let mut j: usize = 0;
    while j < xs.len()
        invariant
            j <= xs@.len(),
            s == xs@.map_values(|a: IndexArchive| a@),
            s == old(xs)@.map_values(|a: IndexArchive| a@),
            key@ == x@.0,
            insert_index(s, x@, 0) == insert_index(s, x@, j as int),
        decreases xs.len() - j,
    {
        assert(s[j as int] == xs@[j as int]@);
        let other = chars_of(xs[j].path.as_str());
        if chars_less(key.as_slice(), other.as_slice()) {
            xs.insert(j, x);
            assert(xs@.map_values(|a: IndexArchive| a@) =~= s.insert(j as int, x@));
            return;
        }
        j = j + 1;
    }
    xs.push(x);
    assert(xs@.map_values(|a: IndexArchive| a@) =~= s.push(x@));
}

fn other_index_path(path: &[char]) -> (r: bool)
    ensures
        r == is_other_index_path(path@),
{
    chars_start_with(path, chars_of("Index/").as_slice()) && chars_end_with(path, chars_of(".iwa").as_slice())
        && !chars_equal(path, chars_of("Index/Document.iwa").as_slice()) && !chars_equal(
        path,
        chars_of("Index/DocumentMetadata.iwa").as_slice(),
    ) && !chars_equal(path, chars_of("Index/Metadata.iwa").as_slice()) && !chars_equal(
        path,
        chars_of("Index/DocumentStylesheet.iwa").as_slice(),
    )
}

fn read_index_archives(package: &Package) -> (r: Result<Vec<IndexArchive>, Error>)
    ensures
        match index_archives_from(package@, package@.entries) {
            Ok(xs) => r matches Ok(v) && v@.map_values(|a: IndexArchive| a@) == sort_index(xs),
            Err(e) => load_error_matches(r, e),
        },
{
    let entries = package.entries();
    let ghost es = package@.entries;
    let mut found: Vec<IndexArchive> = Vec::new();
    let ghost mut got: Seq<(Seq<char>, ArchiveView)> = seq![];
    let mut i: usize = 0;
    assert(es.skip(0) =~= es);
    while i < entries.len()
        invariant
            i <= entries@.len(),
            es == package@.entries,
            es == entries@.map_values(|e: crate::package::Entry| e@),
            found@.map_values(|a: IndexArchive| a@) == sort_index(got),
            match index_archives_from(package@, es.skip(i as int)) {
                Ok(rest) => index_archives_from(package@, es) == Ok::<Seq<(Seq<char>, ArchiveView)>, LoadError>(
                    got + rest,
                ),
                Err(x) => index_archives_from(package@, es) == Err::<Seq<(Seq<char>, ArchiveView)>, LoadError>(x),
            },
        decreases entries.len() - i,
    {
        let entry = &entries[i];
        assert(es.skip(i as int)[0] == entry@);
        assert(es.skip(i as int).drop_first() =~= es.skip(i + 1));
        let path = chars_of(entry.path_str());
        if other_index_path(path.as_slice()) {
            let archive = package.read_archive(entry.path_str())?;
            let x = IndexArchive { path: entry.path_string(), archive };
            let ghost before = got;
            proof {
                got = got.push(x@);
                assert(got.drop_last() =~= before);
                match index_archives_from(package@, es.skip(i + 1)) {
                    Ok(rest) => {
                        assert(before + (seq![x@] + rest) =~= got + rest);
                    },
                    Err(_) => {},
                }
            }
            insert_index_vec(&mut found, x);
        }
        i = i + 1;
    }
    assert(es.skip(i as int) =~= seq![]);
    assert(got + seq![] =~= got);
    Ok(found)
}

impl DocumentModel {
    /// Decodes the four core archives, in order, then every other archive
    /// under `Index/`, sorted by path (see [`spec_document_model`]).
    pub fn from_package(package: &Package) -> (r: Result<DocumentModel, Error>)
        ensures
            match spec_document_model(package@) {
                Ok(m) => r matches Ok(x) && x@ == m,
                Err(e) => load_error_matches(r, e),
            },
    {
        let document = package.read_archive("Index/Document.iwa")?;
        let document_metadata = package.read_archive("Index/DocumentMetadata.iwa")?;
        let metadata = package.read_archive("Index/Metadata.iwa")?;
        let stylesheet = package.read_archive("Index/DocumentStylesheet.iwa")?;
        let index_archives = read_index_archives(package)?;
        Ok(DocumentModel { document, document_metadata, metadata, stylesheet, index_archives })
    }

    /// Decoded `Index/Document.iwa` archive.
    pub fn document(&self) -> (r: &IwaArchive)
        ensures
            r@ == self@.document,
    {
        &self.document
    }

    /// Decoded `Index/DocumentMetadata.iwa` archive.
    pub fn document_metadata(&self) -> (r: &IwaArchive)
        ensures
            r@ == self@.document_metadata,
    {
        &self.document_metadata
    }

    /// Decoded `Index/Metadata.iwa` archive.
    pub fn metadata(&self) -> (r: &IwaArchive)
        ensures
            r@ == self@.metadata,
    {
        &self.metadata
    }

    /// Decoded `Index/DocumentStylesheet.iwa` archive.
    pub fn stylesheet(&self) -> (r: &IwaArchive)
        ensures
            r@ == self@.stylesheet,
    {
        &self.stylesheet
    }

    /// The other archives under `Index/`, sorted by path.
    pub fn index_archives(&self) -> (r: &[IndexArchive])
        ensures
            r@.map_values(|a: IndexArchive| a@) == self@.index_archives,
    {
        self.index_archives.as_slice()
    }
}

} // verus!
