//! The archives of a Numbers package and queries over their object graph.
use crate::error::Error;
use crate::inspect::{chars_less, chars_less_from};
use crate::iwa::{decode_payload, payload_fields, spec_objects, ArchiveView, IwaArchive, IwaObject, ObjectView};
use crate::numbers::counts::{count_ids, count_values};
use crate::numbers::types::{message_type_name, opt_str_view, type_name_of};
use crate::package::{load_error_matches, spec_read_archive, EntryView, LoadError, Package, PackageView};
use crate::protobuf::{read_varint, spec_read_varint, ProtoMessage};
use crate::text::{chars_of, chars_start_with, has_prefix};
use vstd::prelude::*;

verus! {

/// Path prefix of the table archives.
pub open spec fn table_prefix() -> Seq<char> {
    "Index/Tables/"@
}

/// A decoded archive under `Index/Tables/` with its package path.
#[derive(Debug, Clone)]
pub struct TableArchive {
    path: String,
    archive: IwaArchive,
}

impl View for TableArchive {
    type V = (Seq<char>, ArchiveView);

    closed spec fn view(&self) -> (Seq<char>, ArchiveView) {
        (self.path@, self.archive@)
    }
}

impl TableArchive {
    /// Package-relative path such as `Index/Tables/Tile-....iwa`.
    pub fn path(&self) -> (r: &str)
        ensures
            r@ == self@.0,
    {
        self.path.as_str()
    }

    /// The decoded archive.
    pub fn archive(&self) -> (r: &IwaArchive)
        ensures
            r@ == self@.1,
    {
        &self.archive
    }
}

/// The core archives of a Numbers package and its table archives, sorted by
/// path.
#[derive(Debug, Clone)]
pub struct Spreadsheet {
    document: IwaArchive,
    document_metadata: IwaArchive,
    metadata: IwaArchive,
    stylesheet: IwaArchive,
    calculation_engine: IwaArchive,
    table_archives: Vec<TableArchive>,
}

/// The mathematical content of a [`Spreadsheet`].
pub struct SpreadsheetView {
    pub document: ArchiveView,
    pub document_metadata: ArchiveView,
    pub metadata: ArchiveView,
    pub stylesheet: ArchiveView,
    pub calculation_engine: ArchiveView,
    pub table_archives: Seq<(Seq<char>, ArchiveView)>,
}

impl View for Spreadsheet {
    type V = SpreadsheetView;

    closed spec fn view(&self) -> SpreadsheetView {
        SpreadsheetView {
            document: self.document@,
            document_metadata: self.document_metadata@,
            metadata: self.metadata@,
            stylesheet: self.stylesheet@,
            calculation_engine: self.calculation_engine@,
            table_archives: self.table_archives@.map_values(|t: TableArchive| t@),
        }
    }
}

/// Decoding the archives under `Index/Tables/` among `es`, in order; the
/// first failure fails all.
pub open spec fn spec_table_archives_from(p: PackageView, es: Seq<EntryView>) -> Result<
    Seq<(Seq<char>, ArchiveView)>,
    LoadError,
>
    decreases es.len(),
{
    if es.len() == 0 {
        Ok(seq![])
    } else {
        let e = es[0];
        if !has_prefix(e.path, table_prefix()) {
            spec_table_archives_from(p, es.drop_first())
        } else {
            match spec_read_archive(p, e.path) {
                Err(x) => Err(x),
                Ok(a) => match spec_table_archives_from(p, es.drop_first()) {
                    Err(x) => Err(x),
                    Ok(rest) => Ok(seq![(e.path, a)] + rest),
                },
            }
        }
    }
}

/// Inserting `x` after every archive whose path does not sort after its own.
pub open spec fn insert_by_archive_path(xs: Seq<(Seq<char>, ArchiveView)>, x: (Seq<char>, ArchiveView), j: int) -> Seq<
    (Seq<char>, ArchiveView),
>
    decreases xs.len() - j,
{
    if j < 0 || j >= xs.len() {
        xs.push(x)
    } else if chars_less_from(x.0, xs[j].0, 0) {
        xs.insert(j, x)
    } else {
        insert_by_archive_path(xs, x, j + 1)
    }
}

/// Archives stably sorted by path.
pub open spec fn sort_archives(xs: Seq<(Seq<char>, ArchiveView)>) -> Seq<(Seq<char>, ArchiveView)>
    decreases xs.len(),
{
    if xs.len() == 0 {
        seq![]
    } else {
        insert_by_archive_path(sort_archives(xs.drop_last()), xs.last(), 0)
    }
}

/// Decoding a Numbers package: its five core archives, in order, then the
/// table archives sorted by path.
pub open spec fn spec_spreadsheet(p: PackageView) -> Result<SpreadsheetView, LoadError> {
    match spec_read_archive(p, "Index/Document.iwa"@) {
        Err(x) => Err(x),
        Ok(d) => match spec_read_archive(p, "Index/DocumentMetadata.iwa"@) {
            Err(x) => Err(x),
            Ok(dm) => match spec_read_archive(p, "Index/Metadata.iwa"@) {
                Err(x) => Err(x),
                Ok(m) => match spec_read_archive(p, "Index/DocumentStylesheet.iwa"@) {
                    Err(x) => Err(x),
                    Ok(st) => match spec_read_archive(p, "Index/CalculationEngine.iwa"@) {
                        Err(x) => Err(x),
                        Ok(ce) => match spec_table_archives_from(p, p.entries) {
                            Err(x) => Err(x),
                            Ok(ts) => Ok(
                                SpreadsheetView {
                                    document: d,
                                    document_metadata: dm,
                                    metadata: m,
                                    stylesheet: st,
                                    calculation_engine: ce,
                                    table_archives: sort_archives(ts),
                                },
                            ),
                        },
                    },
                },
            },
        },
    }
}

/// Every archive of a spreadsheet with its path: the core archives, then
/// the table archives.
pub open spec fn archive_list(s: SpreadsheetView) -> Seq<(Seq<char>, ArchiveView)> {
    seq![
        ("Index/Document.iwa"@, s.document),
        ("Index/DocumentMetadata.iwa"@, s.document_metadata),
        ("Index/Metadata.iwa"@, s.metadata),
        ("Index/DocumentStylesheet.iwa"@, s.stylesheet),
        ("Index/CalculationEngine.iwa"@, s.calculation_engine),
    ] + s.table_archives
}

/// The first of `objs` with identifier `id`.
pub open spec fn find_by_id(objs: Seq<ObjectView>, id: u64) -> Option<ObjectView>
    decreases objs.len(),
{
    if objs.len() == 0 {
        None
    } else if objs[0].identifier == Some(id) {
        Some(objs[0])
    } else {
        find_by_id(objs.drop_first(), id)
    }
}

/// The first object with identifier `id` over a list of archives, in order.
pub open spec fn find_in_archives(av: Seq<(Seq<char>, ArchiveView)>, id: u64) -> Option<ObjectView>
    decreases av.len(),
{
    if av.len() == 0 {
        None
    } else {
        match find_by_id(spec_objects(av[0].1), id) {
            Some(o) => Some(o),
            None => find_in_archives(av.drop_first(), id),
        }
    }
}

/// The path of the first archive of a list holding an object `id`.
pub open spec fn path_in_archives(av: Seq<(Seq<char>, ArchiveView)>, id: u64) -> Option<Seq<char>>
    decreases av.len(),
{
    if av.len() == 0 {
        None
    } else if find_by_id(spec_objects(av[0].1), id) is Some {
        Some(av[0].0)
    } else {
        path_in_archives(av.drop_first(), id)
    }
}

/// The identifiers of `objs`, in order.
pub open spec fn ids_in(objs: Seq<ObjectView>) -> Seq<u64>
    decreases objs.len(),
{
    if objs.len() == 0 {
        seq![]
    } else {
        let r = ids_in(objs.drop_last());
        match objs.last().identifier {
            Some(x) => r.push(x),
            None => r,
        }
    }
}

/// The identifiers of the objects of a list of archives, in order.
pub open spec fn known_ids(av: Seq<(Seq<char>, ArchiveView)>) -> Seq<u64>
    decreases av.len(),
{
    if av.len() == 0 {
        seq![]
    } else {
        known_ids(av.drop_last()) + ids_in(spec_objects(av.last().1))
    }
}

/// Scanning a payload for known object identifiers: a varint read at each of
/// the first `n` offsets counts when it is not `self_id`, is some object's
/// identifier, and was not counted before.
pub open spec fn refs_scan(payload: Seq<u8>, self_id: u64, av: Seq<(Seq<char>, ArchiveView)>, n: int) -> Seq<u64>
    decreases n,
{
    if n <= 0 {
        seq![]
    } else {
        let r = refs_scan(payload, self_id, av, n - 1);
        match spec_read_varint(payload, n - 1).0 {
            Ok(v) => if v != self_id && known_ids(av).contains(v) && !r.contains(v) {
                r.push(v)
            } else {
                r
            },
            Err(_) => r,
        }
    }
}

/// The known objects an object refers to (see [`refs_scan`]).
pub open spec fn spec_object_references(s: SpreadsheetView, id: u64) -> Seq<u64> {
    match find_in_archives(archive_list(s), id) {
        Some(o) => refs_scan(o.payload, id, archive_list(s), o.payload.len() as int),
        None => seq![],
    }
}

/// The view of an optional object.
pub open spec fn opt_object_view(o: Option<IwaObject>) -> Option<ObjectView> {
    match o {
        Some(x) => Some(x@),
        None => None,
    }
}

/// A summary of one object of the package graph.
#[derive(Debug, Clone, PartialEq, Eq)]
pub struct ObjectInfo {
    object_id: u64,
    message_type: u64,
    role_name: Option<&'static str>,
    archive_path: String,
}

/// The mathematical content of an [`ObjectInfo`].
pub struct ObjectInfoView {
    pub object_id: u64,
    pub message_type: u64,
    pub role_name: Option<Seq<char>>,
    pub archive_path: Seq<char>,
}

impl View for ObjectInfo {
    type V = ObjectInfoView;

    closed spec fn view(&self) -> ObjectInfoView {
        ObjectInfoView {
            object_id: self.object_id,
            message_type: self.message_type,
            role_name: opt_str_view(self.role_name),
            archive_path: self.archive_path@,
        }
    }
}

impl ObjectInfo {
    /// Object identifier within the package.
    pub fn object_id(&self) -> (r: u64)
        ensures
            r == self@.object_id,
    {
        self.object_id
    }

    /// Message type identifier.
    pub fn message_type(&self) -> (r: u64)
        ensures
            r == self@.message_type,
    {
        self.message_type
    }

    /// Role name for known message types.
    pub fn message_type_name(&self) -> (r: Option<&'static str>)
        ensures
            opt_str_view(r) == self@.role_name,
    {
        self.role_name
    }

    /// Package-relative `.iwa` path holding the object.
    pub fn archive_path(&self) -> (r: &str)
        ensures
            r@ == self@.archive_path,
    {
        self.archive_path.as_str()
    }
}

/// The summary of object `id`: its message type, the role name of that type
/// and the path of the first archive holding it.
pub open spec fn spec_object_info(s: SpreadsheetView, id: u64) -> Option<ObjectInfoView> {
    match find_in_archives(archive_list(s), id) {
        Some(o) => match (o.message_type, path_in_archives(archive_list(s), id)) {
            (Some(t), Some(p)) => Some(
                ObjectInfoView { object_id: id, message_type: t, role_name: type_name_of(t), archive_path: p },
            ),
            _ => None,
        },
        None => None,
    }
}

/// The summaries of the objects `ids`, skipping unknown ones.
pub open spec fn spec_infos(s: SpreadsheetView, ids: Seq<u64>) -> Seq<ObjectInfoView>
    decreases ids.len(),
{
    if ids.len() == 0 {
        seq![]
    } else {
        let r = spec_infos(s, ids.drop_last());
        match spec_object_info(s, ids.last()) {
            Some(i) => r.push(i),
            None => r,
        }
    }
}

fn index_of_id(objs: &Vec<IwaObject>, id: u64) -> (r: Option<usize>)
    ensures
        match find_by_id(objs@.map_values(|o: IwaObject| o@), id) {
            Some(o) => r matches Some(j) && j < objs@.len() && objs@[j as int]@ == o,
            None => r is None,
        },
{
    let ghost all = objs@.map_values(|o: IwaObject| o@);
    let mut j: usize = 0;
    assert(all.skip(0) =~= all);
    while j < objs.len()
        invariant
            j <= objs@.len(),
            all == objs@.map_values(|o: IwaObject| o@),
            find_by_id(all, id) == find_by_id(all.skip(j as int), id),
        decreases objs.len() - j,
    {
        assert(all.skip(j as int)[0] == objs@[j as int]@);
        assert(all.skip(j as int).drop_first() =~= all.skip(j + 1));
        if objs[j].identifier == Some(id) {
            return Some(j);
        }
        j = j + 1;
    }
    assert(all.skip(j as int) =~= seq![]);
    None
}

fn find_object(objs: Vec<IwaObject>, id: u64) -> (r: Option<IwaObject>)
    ensures
        opt_object_view(r) == find_by_id(objs@.map_values(|o: IwaObject| o@), id),
{
    match index_of_id(&objs, id) {
        Some(j) => {
            let mut v = objs;
            Some(v.remove(j))
        },
        None => None,
    }
}

/// The view of a list of path-and-archive pairs.
pub open spec fn list_view(v: Seq<(&str, &IwaArchive)>) -> Seq<(Seq<char>, ArchiveView)> {
    v.map_values(|p: (&str, &IwaArchive)| (p.0@, p.1@))
}

impl Spreadsheet {
    fn archives(&self) -> (r: Vec<(&str, &IwaArchive)>)
        ensures
            list_view(r@) == archive_list(self@),
    {
        let mut v: Vec<(&str, &IwaArchive)> = Vec::new();
        v.push(("Index/Document.iwa", &self.document));
        v.push(("Index/DocumentMetadata.iwa", &self.document_metadata));
        v.push(("Index/Metadata.iwa", &self.metadata));
        v.push(("Index/DocumentStylesheet.iwa", &self.stylesheet));
        v.push(("Index/CalculationEngine.iwa", &self.calculation_engine));
        let ghost core = list_view(v@);
        let ghost ts = self@.table_archives;
        let mut i: usize = 0;
        while i < self.table_archives.len()
            invariant
                i <= self.table_archives@.len(),
                ts == self.table_archives@.map_values(|t: TableArchive| t@),
                list_view(v@) == core + ts.take(i as int),
            decreases self.table_archives.len() - i,
        {
            let t = &self.table_archives[i];
            let ghost before = list_view(v@);
            v.push((t.path.as_str(), &t.archive));
            assert(ts[i as int] == t@);
            assert(list_view(v@) =~= before.push(t@));
            assert(ts.take(i + 1) =~= ts.take(i as int).push(ts[i as int]));
            i = i + 1;
        }
        assert(ts.take(ts.len() as int) =~= ts);
        assert(list_view(v@) =~= archive_list(self@));
        v
    }

    /// Decoded `Index/Document.iwa` archive.
    pub fn document(&self) -> (r: &IwaArchive)
        ensures
            r@ == self@.document,
    {
        &self.document
    }

    /// Decoded `Index/DocumentMetadata.iwa` archive.
    pub fn document_metadata(&self) -> (r: &IwaArchive)
        ensures
            r@ == self@.document_metadata,
    {
        &self.document_metadata
    }

    /// Decoded `Index/Metadata.iwa` archive.
    pub fn metadata(&self) -> (r: &IwaArchive)
        ensures
            r@ == self@.metadata,
    {
        &self.metadata
    }

    /// Decoded `Index/DocumentStylesheet.iwa` archive.
    pub fn stylesheet(&self) -> (r: &IwaArchive)
        ensures
            r@ == self@.stylesheet,
    {
        &self.stylesheet
    }

    /// Decoded `Index/CalculationEngine.iwa` archive.
    pub fn calculation_engine(&self) -> (r: &IwaArchive)
        ensures
            r@ == self@.calculation_engine,
    {
        &self.calculation_engine
    }

    /// The decoded archives under `Index/Tables/`, sorted by path.
    pub fn table_archives(&self) -> (r: &[TableArchive])
        ensures
            r@.map_values(|t: TableArchive| t@) == self@.table_archives,
    {
        self.table_archives.as_slice()
    }

    /// The first object with identifier `object_id`, over the core archives
    /// then the table archives.
    pub fn object_by_id(&self, object_id: u64) -> (r: Option<IwaObject>)
        ensures
            opt_object_view(r) == find_in_archives(archive_list(self@), object_id),
    {
        let archs = self.archives();
        let ghost av = list_view(archs@);
        let mut i: usize = 0;
        assert(av.skip(0) =~= av);
        while i < archs.len()
            invariant
                i <= archs@.len(),
                av == list_view(archs@),
                av == archive_list(self@),
                find_in_archives(av, object_id) == find_in_archives(av.skip(i as int), object_id),
            decreases archs.len() - i,
        {
            assert(av.skip(i as int)[0] == av[i as int]);
            assert(av.skip(i as int).drop_first() =~= av.skip(i + 1));
            assert(av[i as int].1 == archs@[i as int].1@);
            let found = find_object(archs[i].1.objects(), object_id);
            if found.is_some() {
                return found;
            }
            i = i + 1;
        }
        None
    }

    /// The message type of object `object_id`, when present.
    pub fn object_message_type(&self, object_id: u64) -> (r: Option<u64>)
        ensures
            r == match find_in_archives(archive_list(self@), object_id) {
                Some(o) => o.message_type,
                None => None,
            },
    {
        match self.object_by_id(object_id) {
            Some(o) => o.message_type,
            None => None,
        }
    }

    /// The payload of object `object_id` decoded as a message.
    pub fn object_message(&self, object_id: u64) -> (r: Option<ProtoMessage>)
        ensures
            match find_in_archives(archive_list(self@), object_id) {
                Some(o) => match payload_fields(o) {
                    Some(fs) => r matches Some(m) && m@ == fs,
                    None => r is None,
                },
                None => r is None,
            },
    {
        match self.object_by_id(object_id) {
            Some(o) => decode_payload(&o),
            None => None,
        }
    }

    /// The path of the first archive holding object `object_id`.
    pub fn object_archive_path(&self, object_id: u64) -> (r: Option<&str>)
        ensures
            opt_str_view(r) == path_in_archives(archive_list(self@), object_id),
    {
        let archs = self.archives();
        let ghost av = list_view(archs@);
        let mut i: usize = 0;
        assert(av.skip(0) =~= av);
        while i < archs.len()
            invariant
                i <= archs@.len(),
                av == list_view(archs@),
                av == archive_list(self@),
                path_in_archives(av, object_id) == path_in_archives(av.skip(i as int), object_id),
            decreases archs.len() - i,
        {
            assert(av.skip(i as int)[0] == av[i as int]);
            assert(av.skip(i as int).drop_first() =~= av.skip(i + 1));
            assert(av[i as int] == (archs@[i as int].0@, archs@[i as int].1@));
            let found = find_object(archs[i].1.objects(), object_id);
            if found.is_some() {
                return Some(archs[i].0);
            }
            i = i + 1;
        }
        None
    }

    fn known_object_ids(&self) -> (r: Vec<u64>)
        ensures
            r@ == known_ids(archive_list(self@)),
    {
        let archs = self.archives();
        let ghost av = list_view(archs@);
        let mut out: Vec<u64> = Vec::new();
        let mut i: usize = 0;
        while i < archs.len()
            invariant
                i <= archs@.len(),
                av == list_view(archs@),
                out@ == known_ids(av.take(i as int)),
            decreases archs.len() - i,
        {
            let objs = archs[i].1.objects();
            let ghost ov = objs@.map_values(|o: IwaObject| o@);
            assert(av[i as int].1 == archs@[i as int].1@);
            assert(av.take(i + 1).drop_last() =~= av.take(i as int));
            let ghost base = out@;
            let mut j: usize = 0;
            while j < objs.len()
                invariant
                    j <= objs@.len(),
                    ov == objs@.map_values(|o: IwaObject| o@),
                    out@ == base + ids_in(ov.take(j as int)),
                decreases objs.len() - j,
            {
                assert(ov.take(j + 1).drop_last() =~= ov.take(j as int));
                assert(ov.take(j + 1).last() == objs@[j as int]@);
                if let Some(x) = objs[j].identifier {
                    out.push(x);
                }
                assert(out@ =~= base + ids_in(ov.take(j + 1)));
                j = j + 1;
            }
            assert(ov.take(objs@.len() as int) =~= ov);
            i = i + 1;
        }
        assert(av.take(archs@.len() as int) =~= av);
        out
    }

    /// The known objects that object `object_id`'s payload refers to (see
    /// [`refs_scan`]); empty when there is no such object.
    pub fn object_references(&self, object_id: u64) -> (r: Vec<u64>)
        ensures
            r@ == spec_object_references(self@, object_id),
    {
        let object = match self.object_by_id(object_id) {
            Some(o) => o,
            None => return Vec::new(),
        };
        let known = self.known_object_ids();
        let ghost av = archive_list(self@);
        let payload = object.payload.as_slice();
        let mut out: Vec<u64> = Vec::new();
        let mut start: usize = 0;
        while start < payload.len()
            invariant
                start <= payload@.len(),
                payload@ == object@.payload,
                known@ == known_ids(av),
                out@ == refs_scan(payload@, object_id, av, start as int),
            decreases payload.len() - start,
        {
            let mut cursor = start;
            let res = read_varint(payload, &mut cursor);
            if let Ok(v) = res {
                if v != object_id && contains_u64(known.as_slice(), v) && !contains_u64(out.as_slice(), v) {
                    out.push(v);
                }
            }
            start = start + 1;
        }
        out
    }

    /// The summary of object `object_id` (see [`spec_object_info`]).
    pub fn object_info(&self, object_id: u64) -> (r: Option<ObjectInfo>)
        ensures
            match spec_object_info(self@, object_id) {
                Some(i) => r matches Some(x) && x@ == i,
                None => r is None,
            },
    {
        let message_type = match self.object_message_type(object_id) {
            Some(t) => t,
            None => return None,
        };
        let path = match self.object_archive_path(object_id) {
            Some(p) => p,
            None => return None,
        };
        Some(
            ObjectInfo {
                object_id,
                message_type,
                role_name: message_type_name(message_type),
                archive_path: path.to_owned(),
            },
        )
    }

    /// The summaries of the known objects that object `object_id` refers to.
    pub fn object_reference_info(&self, object_id: u64) -> (r: Vec<ObjectInfo>)
        ensures
            r@.map_values(|i: ObjectInfo| i@) == spec_infos(self@, spec_object_references(self@, object_id)),
    {
        let ids = self.object_references(object_id);
        self.infos_of(&ids)
    }

    /// The object infos of the known objects among `ids`, in order.
    pub(crate) fn infos_of(&self, ids: &Vec<u64>) -> (r: Vec<ObjectInfo>)
        ensures
            r@.map_values(|i: ObjectInfo| i@) == spec_infos(self@, ids@),
    {
        let mut out: Vec<ObjectInfo> = Vec::new();
        let mut i: usize = 0;
        while i < ids.len()
            invariant
                i <= ids@.len(),
                out@.map_values(|i: ObjectInfo| i@) == spec_infos(self@, ids@.take(i as int)),
            decreases ids.len() - i,
        {
            assert(ids@.take(i + 1).drop_last() =~= ids@.take(i as int));
            let ghost before = out@.map_values(|i: ObjectInfo| i@);
            if let Some(info) = self.object_info(ids[i]) {
                out.push(info);
                assert(out@.map_values(|i: ObjectInfo| i@) =~= before.push(info@));
            }
            i = i + 1;
        }
        assert(ids@.take(ids@.len() as int) =~= ids@);
        out
    }

    /// Counts the message types of the objects that object `object_id`
    /// refers to.
    pub fn object_reference_type_counts(&self, object_id: u64) -> (r: std::collections::BTreeMap<u64, usize>)
        ensures
            r@ == count_values(
                spec_infos(self@, spec_object_references(self@, object_id)).map_values(
                    |i: ObjectInfoView| i.message_type,
                ),
            ),
    {
        let infos = self.object_reference_info(object_id);
        let mut types: Vec<u64> = Vec::new();
        let mut i: usize = 0;
        while i < infos.len()
            invariant
                i <= infos@.len(),
                types@ == infos@.map_values(|i: ObjectInfo| i@).take(i as int).map_values(
                    |i: ObjectInfoView| i.message_type,
                ),
            decreases infos.len() - i,
        {
            types.push(infos[i].message_type());
            assert(types@ =~= infos@.map_values(|i: ObjectInfo| i@).take(i + 1).map_values(
                |i: ObjectInfoView| i.message_type,
            ));
            i = i + 1;
        }
        assert(infos@.map_values(|i: ObjectInfo| i@).take(infos@.len() as int) =~= infos@.map_values(
            |i: ObjectInfo| i@,
        ));
        count_ids(&types)
    }

    /// The role name of object `object_id`'s message type, when known.
    pub fn object_message_type_name(&self, object_id: u64) -> (r: Option<&'static str>)
        ensures
            opt_str_view(r) == match find_in_archives(archive_list(self@), object_id) {
                Some(o) => match o.message_type {
                    Some(t) => type_name_of(t),
                    None => None,
                },
                None => None,
            },
    {
        match self.object_message_type(object_id) {
            Some(t) => message_type_name(t),
            None => None,
        }
    }
}

/// Whether `x` is one of `v`.
pub fn contains_u64(v: &[u64], x: u64) -> (r: bool)
    ensures
        r == v@.contains(x),
{
    crate::numbers::sheet::contains_id(v, x)
}

fn insert_archive(xs: &mut Vec<TableArchive>, x: TableArchive)
    ensures
        final(xs)@.map_values(|t: TableArchive| t@) == insert_by_archive_path(
            old(xs)@.map_values(|t: TableArchive| t@),
            x@,
            0,
        ),
{
    let ghost s = xs@.map_values(|t: TableArchive| t@);
    let key = chars_of(x.path.as_str());
    let mut j: usize = 0;
    while j < xs.len()
        invariant
            j <= xs@.len(),
            s == xs@.map_values(|t: TableArchive| t@),
            s == old(xs)@.map_values(|t: TableArchive| t@),
            key@ == x@.0,
            insert_by_archive_path(s, x@, 0) == insert_by_archive_path(s, x@, j as int),
        decreases xs.len() - j,
    {
        assert(s[j as int] == xs@[j as int]@);
        let other = chars_of(xs[j].path.as_str());
        if chars_less(key.as_slice(), other.as_slice()) {
            xs.insert(j, x);
            assert(xs@.map_values(|t: TableArchive| t@) =~= s.insert(j as int, x@));
            return;
        }
        j = j + 1;
    }
    xs.push(x);
    assert(xs@.map_values(|t: TableArchive| t@) =~= s.push(x@));
}

fn read_table_archives(package: &Package) -> (r: Result<Vec<TableArchive>, Error>)
    ensures
        match spec_table_archives_from(package@, package@.entries) {
            Ok(ts) => r matches Ok(v) && v@.map_values(|t: TableArchive| t@) == sort_archives(ts),
            Err(e) => load_error_matches(r, e),
        },
{
    let entries = package.entries();
    let ghost es = package@.entries;
    let prefix = chars_of("Index/Tables/");
    let mut found: Vec<TableArchive> = Vec::new();
    let ghost mut got: Seq<(Seq<char>, ArchiveView)> = seq![];
    let mut i: usize = 0;
    assert(es.skip(0) =~= es);
    while i < entries.len()
        invariant
            i <= entries@.len(),
            es == package@.entries,
            es == entries@.map_values(|e: crate::package::Entry| e@),
            prefix@ == table_prefix(),
            found@.map_values(|t: TableArchive| t@) == sort_archives(got),
            match spec_table_archives_from(package@, es.skip(i as int)) {
                Ok(rest) => spec_table_archives_from(package@, es) == Ok::<
                    Seq<(Seq<char>, ArchiveView)>,
                    LoadError,
                >(got + rest),
                Err(x) => spec_table_archives_from(package@, es) == Err::<
                    Seq<(Seq<char>, ArchiveView)>,
                    LoadError,
                >(x),
            },
        decreases entries.len() - i,
    {
        let entry = &entries[i];
        assert(es.skip(i as int)[0] == entry@);
        assert(es.skip(i as int).drop_first() =~= es.skip(i + 1));
        let path = chars_of(entry.path_str());
        if chars_start_with(path.as_slice(), prefix.as_slice()) {
            let archive = package.read_archive(entry.path_str())?;
            let t = TableArchive { path: entry.path_string(), archive };
            let ghost before = got;
            proof {
                got = got.push(t@);
                assert(got.drop_last() =~= before);
                match spec_table_archives_from(package@, es.skip(i + 1)) {
                    Ok(rest) => {
                        assert(before + (seq![t@] + rest) =~= got + rest);
                    },
                    Err(_) => {},
                }
            }
            insert_archive(&mut found, t);
        }
        i = i + 1;
    }
    assert(es.skip(i as int) =~= seq![]);
    assert(got + seq![] =~= got);
    Ok(found)
}

impl Spreadsheet {
    /// Decodes the five core archives, in order, then every archive under
    /// `Index/Tables/`, sorted by path (see [`spec_spreadsheet`]).
    pub fn from_package(package: &Package) -> (r: Result<Spreadsheet, Error>)
        ensures
            match spec_spreadsheet(package@) {
                Ok(s) => r matches Ok(x) && x@ == s,
                Err(e) => load_error_matches(r, e),
            },
    {
        let document = package.read_archive("Index/Document.iwa")?;
        let document_metadata = package.read_archive("Index/DocumentMetadata.iwa")?;
        let metadata = package.read_archive("Index/Metadata.iwa")?;
        let stylesheet = package.read_archive("Index/DocumentStylesheet.iwa")?;
        let calculation_engine = package.read_archive("Index/CalculationEngine.iwa")?;
        let table_archives = read_table_archives(package)?;
        Ok(Spreadsheet { document, document_metadata, metadata, stylesheet, calculation_engine, table_archives })
    }
}

proof fn lemma_refs_scan(payload: Seq<u8>, self_id: u64, av: Seq<(Seq<char>, ArchiveView)>, n: int)
    ensures
        refs_scan(payload, self_id, av, n).no_duplicates(),
        !refs_scan(payload, self_id, av, n).contains(self_id),
        forall|x: u64| #[trigger] refs_scan(payload, self_id, av, n).contains(x) ==> known_ids(av).contains(x),
    decreases n,
{
    if n > 0 {
        let r = refs_scan(payload, self_id, av, n - 1);
        lemma_refs_scan(payload, self_id, av, n - 1);
        if let Ok(v) = spec_read_varint(payload, n - 1).0 {
            if v != self_id && known_ids(av).contains(v) && !r.contains(v) {
                let r2 = r.push(v);
                assert forall|a: int, b: int| 0 <= a < b < r2.len() implies r2[a] != r2[b] by {
                    if b == r.len() {
                        assert(r2[a] == r[a]);
                    }
                }
                assert forall|x: u64| #[trigger] r2.contains(x) implies known_ids(av).contains(x) by {
                    let w = choose|w: int| 0 <= w < r2.len() && r2[w] == x;
                    if w < r.len() {
                        assert(r[w] == x);
                        assert(r.contains(x));
                    } else {
                        assert(x == v);
                    }
                }
                if r2.contains(self_id) {
                    let w = choose|w: int| 0 <= w < r2.len() && r2[w] == self_id;
                    assert(w < r.len());
                    assert(r[w] == self_id);
                }
            }
        }
    }
}

/// Law: the references of an object name each known object at most once,
/// never the object itself, and only objects some archive of the
/// spreadsheet holds; an object that no archive holds refers to nothing.
pub proof fn lemma_object_references(s: SpreadsheetView, id: u64)
    ensures
        spec_object_references(s, id).no_duplicates(),
        !spec_object_references(s, id).contains(id),
        forall|x: u64| #[trigger] spec_object_references(s, id).contains(x) ==> known_ids(archive_list(s)).contains(x),
        find_in_archives(archive_list(s), id) is None ==> spec_object_references(s, id) == Seq::<u64>::empty(),
{
    if let Some(o) = find_in_archives(archive_list(s), id) {
        lemma_refs_scan(o.payload, id, archive_list(s), o.payload.len() as int);
    }
}

} // verus!
