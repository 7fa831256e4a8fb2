//! Building blocks shared by the package writers: archive headers, the
//! infrastructure archives every package carries, and metadata files.
use crate::error::Error;
use crate::iwa::{
    spec_descriptor_fields, spec_encode_archive, DescriptorView, IwaArchive, IwaArchiveDescriptor,
    IwaObjectReference, IwaPacket,
};
use crate::protobuf::{copy_bytes, spec_encode_fields, ProtoField, ProtoFieldView, ProtoMessage, ProtoValueView};
use vstd::prelude::*;
use vstd::utf8::encode_utf8;

verus! {

/// A varint field.
pub open spec fn vfield(number: u32, x: u64) -> ProtoFieldView {
    ProtoFieldView { number, value: ProtoValueView::Varint(x) }
}

/// A length-delimited field.
pub open spec fn bfield(number: u32, b: Seq<u8>) -> ProtoFieldView {
    ProtoFieldView { number, value: ProtoValueView::LengthDelimited(b) }
}

/// The bytes of an object-reference message: field 1 holds the id.
pub open spec fn objref(id: u64) -> Seq<u8> {
    spec_encode_fields(seq![vfield(1, id)])
}

/// The `MessageInfo.version` every written archive declares.
pub open spec fn archive_version() -> Seq<u8> {
    seq![1u8, 0u8, 5u8]
}

/// The descriptor of a written archive header.
pub open spec fn header_descriptor(root: u64, kind: u64, body_len: usize, refs: Seq<IwaObjectReference>) -> DescriptorView {
    DescriptorView {
        root_object_id: Some(root),
        kind_hint: Some(kind),
        message_version: Some(archive_version()),
        body_hint: Some(body_len as u64),
        object_references: refs,
    }
}

/// The bytes of a written archive header.
#[verifier::opaque]
pub open spec fn header_bytes(root: u64, kind: u64, body_len: usize, refs: Seq<IwaObjectReference>) -> Seq<u8> {
    spec_encode_fields(spec_descriptor_fields(header_descriptor(root, kind, body_len, refs)))
}

/// An archive holding one object: its header and its payload.
pub open spec fn single_object_archive(root: u64, kind: u64, body: Seq<u8>, refs: Seq<IwaObjectReference>) -> Seq<u8> {
    spec_encode_archive(header_bytes(root, kind, body.len() as usize, refs), body)
}

/// An object-reference message for `id`.
pub fn object_reference(id: u64) -> (r: Result<Vec<u8>, Error>)
    ensures
        r matches Ok(v) && v@ == objref(id),
{
    let m = ProtoMessage::new(vec![ProtoField::varint(1, id)]);
    assert(m@ =~= seq![vfield(1, id)]);
    m.encode()
}

/// Builds an archive header packet that declares references.
pub fn synthesize_header_with_references(
    root_object_id: u64,
    kind: u64,
    body_len: usize,
    object_references: Vec<IwaObjectReference>,
) -> (r: Result<IwaPacket, Error>)
    ensures
        r matches Ok(p) && p@ == header_bytes(root_object_id, kind, body_len, object_references@),
{
    let descriptor = IwaArchiveDescriptor {
        root_object_id: Some(root_object_id),
        kind_hint: Some(kind),
        message_version: Some(vec![1u8, 0u8, 5u8]),
        body_hint: Some(body_len as u64),
        object_references,
    };
    assert(descriptor@.message_version == Some(archive_version()));
    assert(descriptor@ == header_descriptor(root_object_id, kind, body_len, object_references@));
    let message = descriptor.encode_message()?;
    let bytes = message.encode()?;
    proof {
        reveal(header_bytes);
    }
    Ok(IwaPacket::new(bytes))
}

/// Builds an archive header packet without references.
pub fn synthesize_header(root_object_id: u64, kind: u64, body_len: usize) -> (r: Result<IwaPacket, Error>)
    ensures
        r matches Ok(p) && p@ == header_bytes(root_object_id, kind, body_len, seq![]),
{
    let none: Vec<IwaObjectReference> = Vec::new();
    assert(none@ =~= seq![]);
    synthesize_header_with_references(root_object_id, kind, body_len, none)
}

/// Encodes a one-object archive.
pub fn encode_single_object(
    root_object_id: u64,
    kind: u64,
    body: Vec<u8>,
    refs: Vec<IwaObjectReference>,
) -> (r: Result<Vec<u8>, Error>)
    ensures
        r matches Ok(v) && v@ == single_object_archive(root_object_id, kind, body@, refs@),
{
    let header = synthesize_header_with_references(root_object_id, kind, body.len(), refs)?;
    IwaArchive::encode(header, body)
}

/// A one-element reference list.
pub open spec fn one_ref(id: u64, kind: u64, state: u64) -> Seq<IwaObjectReference> {
    seq![IwaObjectReference { object_id: Some(id), kind_hint: Some(kind), state_hint: Some(state) }]
}

fn one_reference(id: u64, kind: u64, state: u64) -> (r: Vec<IwaObjectReference>)
    ensures
        r@ == one_ref(id, kind, state),
{
    let v = vec![IwaObjectReference { object_id: Some(id), kind_hint: Some(kind), state_hint: Some(state) }];
    assert(v@ =~= one_ref(id, kind, state));
    v
}

// ───────────────────────────── infrastructure archives ─────────────────────────────

/// The object ids of the infrastructure objects of a package.
pub struct InfraIds {
    pub document: u64,
    pub metadata: u64,
    pub object_container: u64,
    pub document_metadata: u64,
    pub annotation: u64,
    pub stylesheet: u64,
}

/// The infrastructure archives of a written package.
pub struct InfraArchives {
    pub document_metadata: Vec<u8>,
    pub metadata: Vec<u8>,
    pub object_container: Vec<u8>,
    pub annotation_author_storage: Vec<u8>,
    pub document_stylesheet: Vec<u8>,
}

/// `Index/DocumentMetadata.iwa`.
pub open spec fn document_metadata_archive(ids: InfraIds) -> Seq<u8> {
    single_object_archive(
        ids.document_metadata,
        11011,
        spec_encode_fields(seq![vfield(1, 0), bfield(3, seq![])]),
        one_ref(ids.document, 3, 1),
    )
}

/// `Index/Metadata.iwa`.
pub open spec fn metadata_archive(ids: InfraIds) -> Seq<u8> {
    single_object_archive(
        ids.metadata,
        11006,
        spec_encode_fields(
            seq![
                vfield(1, 0),
                bfield(2, objref(ids.document)),
                bfield(3, objref(ids.document_metadata)),
                bfield(4, objref(ids.object_container)),
            ],
        ),
        one_ref(ids.document, 1, 1),
    )
}

/// `Index/ObjectContainer.iwa`.
pub open spec fn object_container_archive(ids: InfraIds) -> Seq<u8> {
    single_object_archive(
        ids.object_container,
        11008,
        spec_encode_fields(seq![vfield(1, 0), bfield(2, objref(ids.document))]),
        seq![],
    )
}

/// `Index/AnnotationAuthorStorage.iwa`: an empty object.
pub open spec fn annotation_archive(ids: InfraIds) -> Seq<u8> {
    single_object_archive(ids.annotation, 11009, seq![], seq![])
}

/// The two paragraph styles of the written stylesheet.
pub open spec fn stylesheet_body(ids: InfraIds) -> Seq<u8> {
    spec_encode_fields(
        seq![
            bfield(2, spec_encode_fields(seq![bfield(1, encode_utf8("Normal"@)), bfield(2, objref(ids.stylesheet))])),
            bfield(
                2,
                spec_encode_fields(
                    seq![
                        bfield(1, encode_utf8("Bold"@)),
                        bfield(2, objref((ids.stylesheet + 1) as u64)),
                        bfield(11, spec_encode_fields(seq![vfield(1, 1)])),
                    ],
                ),
            ),
        ],
    )
}

/// `Index/DocumentStylesheet.iwa`.
pub open spec fn stylesheet_archive(ids: InfraIds) -> Seq<u8> {
    single_object_archive(ids.stylesheet, 2, stylesheet_body(ids), one_ref(ids.document, 1, 0))
}

fn push_field(fields: &mut Vec<ProtoField>, f: ProtoField)
    ensures
        final(fields)@.map_values(|x: ProtoField| x@) == old(fields)@.map_values(|x: ProtoField| x@).push(f@),
{
    fields.push(f);
    assert(fields@.map_values(|x: ProtoField| x@) =~= old(fields)@.map_values(|x: ProtoField| x@).push(f@));
}

fn encode_fields_of(fields: Vec<ProtoField>) -> (r: Result<Vec<u8>, Error>)
    ensures
        r matches Ok(v) && v@ == spec_encode_fields(fields@.map_values(|x: ProtoField| x@)),
{
    ProtoMessage::new(fields).encode()
}

fn utf8_of(s: &str) -> (r: Vec<u8>)
    ensures
        r@ == encode_utf8(s@),
{
    copy_bytes(s.as_bytes())
}

/// Encodes the infrastructure archives for the given object ids.
pub fn encode_infra_archives(ids: &InfraIds) -> (r: Result<InfraArchives, Error>)
    requires
        ids.stylesheet < u64::MAX,
    ensures
        r matches Ok(a) && a.document_metadata@ == document_metadata_archive(*ids) && a.metadata@
            == metadata_archive(*ids) && a.object_container@ == object_container_archive(*ids)
            && a.annotation_author_storage@ == annotation_archive(*ids) && a.document_stylesheet@
            == stylesheet_archive(*ids),
{
    let mut f: Vec<ProtoField> = Vec::new();
    push_field(&mut f, ProtoField::varint(1, 0));
    let empty: Vec<u8> = Vec::new();
    assert(empty@ =~= seq![]);
    push_field(&mut f, ProtoField::bytes(3, empty));
    assert(f@.map_values(|x: ProtoField| x@) =~= seq![vfield(1, 0), bfield(3, seq![])]);
    let body = encode_fields_of(f)?;
    let document_metadata = encode_single_object(
        ids.document_metadata,
        11011,
        body,
        one_reference(ids.document, 3, 1),
    )?;

    let mut f: Vec<ProtoField> = Vec::new();
    push_field(&mut f, ProtoField::varint(1, 0));
    push_field(&mut f, ProtoField::bytes(2, object_reference(ids.document)?));
    push_field(&mut f, ProtoField::bytes(3, object_reference(ids.document_metadata)?));
    push_field(&mut f, ProtoField::bytes(4, object_reference(ids.object_container)?));
    assert(f@.map_values(|x: ProtoField| x@) =~= seq![
        vfield(1, 0),
        bfield(2, objref(ids.document)),
        bfield(3, objref(ids.document_metadata)),
        bfield(4, objref(ids.object_container)),
    ]);
    let body = encode_fields_of(f)?;
    let metadata = encode_single_object(ids.metadata, 11006, body, one_reference(ids.document, 1, 1))?;

    let mut f: Vec<ProtoField> = Vec::new();
    push_field(&mut f, ProtoField::varint(1, 0));
    push_field(&mut f, ProtoField::bytes(2, object_reference(ids.document)?));
    assert(f@.map_values(|x: ProtoField| x@) =~= seq![vfield(1, 0), bfield(2, objref(ids.document))]);
    let body = encode_fields_of(f)?;
    let none: Vec<IwaObjectReference> = Vec::new();
    assert(none@ =~= seq![]);
    let object_container = encode_single_object(ids.object_container, 11008, body, none)?;

    let none2: Vec<IwaObjectReference> = Vec::new();
    assert(none2@ =~= seq![]);
    let empty: Vec<u8> = Vec::new();
    assert(empty@ =~= seq![]);
    let annotation_author_storage = encode_single_object(ids.annotation, 11009, empty, none2)?;

    let mut normal: Vec<ProtoField> = Vec::new();
    push_field(&mut normal, ProtoField::bytes(1, utf8_of("Normal")));
    push_field(&mut normal, ProtoField::bytes(2, object_reference(ids.stylesheet)?));
    assert(normal@.map_values(|x: ProtoField| x@) =~= seq![
        bfield(1, encode_utf8("Normal"@)),
        bfield(2, objref(ids.stylesheet)),
    ]);
    let normal_bytes = encode_fields_of(normal)?;
    let mut flag: Vec<ProtoField> = Vec::new();
    push_field(&mut flag, ProtoField::varint(1, 1));
    assert(flag@.map_values(|x: ProtoField| x@) =~= seq![vfield(1, 1)]);
    let flag_bytes = encode_fields_of(flag)?;
    let mut bold: Vec<ProtoField> = Vec::new();
    push_field(&mut bold, ProtoField::bytes(1, utf8_of("Bold")));
    push_field(&mut bold, ProtoField::bytes(2, object_reference(ids.stylesheet + 1)?));
    push_field(&mut bold, ProtoField::bytes(11, flag_bytes));
    assert(bold@.map_values(|x: ProtoField| x@) =~= seq![
        bfield(1, encode_utf8("Bold"@)),
        bfield(2, objref((ids.stylesheet + 1) as u64)),
        bfield(11, spec_encode_fields(seq![vfield(1, 1)])),
    ]);
    let bold_bytes = encode_fields_of(bold)?;
    let mut f: Vec<ProtoField> = Vec::new();
    let ghost nb = normal_bytes@;
    let ghost bb = bold_bytes@;
    push_field(&mut f, ProtoField::bytes(2, normal_bytes));
    push_field(&mut f, ProtoField::bytes(2, bold_bytes));
    assert(f@.map_values(|x: ProtoField| x@) =~= seq![bfield(2, nb), bfield(2, bb)]);
    let body = encode_fields_of(f)?;
    assert(body@ == stylesheet_body(*ids));
    let document_stylesheet = encode_single_object(ids.stylesheet, 2, body, one_reference(ids.document, 1, 0))?;
    Ok(InfraArchives { document_metadata, metadata, object_container, annotation_author_storage, document_stylesheet })
}

// ───────────────────────────── metadata files ─────────────────────────────

/// The text of the written `Metadata/Properties.plist`.
pub open spec fn properties_plist_text() -> Seq<char> {
    "<?xml version=\"1.0\" encoding=\"UTF-8\"?>\n<!DOCTYPE plist PUBLIC \"-//Apple//DTD PLIST 1.0//EN\" \"http://www.apple.com/DTDs/PropertyList-1.0.dtd\">\n<plist version=\"1.0\">\n<dict>\n  <key>documentUUID</key>\n  <string>iwork-rs-generated-document</string>\n  <key>fileFormatVersion</key>\n  <string>14.4.1</string>\n  <key>isMultiPage</key>\n  <false/>\n  <key>revision</key>\n  <string>1</string>\n  <key>stableDocumentUUID</key>\n  <string>iwork-rs-generated-document</string>\n  <key>versionUUID</key>\n  <string>iwork-rs-generated-version</string>\n</dict>\n</plist>\n"@
}

/// The written `Metadata/Properties.plist`.
pub fn properties_plist() -> (r: Vec<u8>)
    ensures
        r@ == encode_utf8(properties_plist_text()),
{
    utf8_of(
        "<?xml version=\"1.0\" encoding=\"UTF-8\"?>\n<!DOCTYPE plist PUBLIC \"-//Apple//DTD PLIST 1.0//EN\" \"http://www.apple.com/DTDs/PropertyList-1.0.dtd\">\n<plist version=\"1.0\">\n<dict>\n  <key>documentUUID</key>\n  <string>iwork-rs-generated-document</string>\n  <key>fileFormatVersion</key>\n  <string>14.4.1</string>\n  <key>isMultiPage</key>\n  <false/>\n  <key>revision</key>\n  <string>1</string>\n  <key>stableDocumentUUID</key>\n  <string>iwork-rs-generated-document</string>\n  <key>versionUUID</key>\n  <string>iwork-rs-generated-version</string>\n</dict>\n</plist>\n",
    )
}

/// The text of the written `Metadata/DocumentIdentifier`.
pub open spec fn document_identifier_text() -> Seq<char> {
    "iwork-rs-generated-document"@
}

/// The written `Metadata/DocumentIdentifier`.
pub fn document_identifier() -> (r: Vec<u8>)
    ensures
        r@ == encode_utf8(document_identifier_text()),
{
    utf8_of("iwork-rs-generated-document")
}

/// The text of the written `Metadata/BuildVersionHistory.plist`.
pub open spec fn build_version_history_text() -> Seq<char> {
    "<?xml version=\"1.0\" encoding=\"UTF-8\"?>\n<!DOCTYPE plist PUBLIC \"-//Apple//DTD PLIST 1.0//EN\" \"http://www.apple.com/DTDs/PropertyList-1.0.dtd\">\n<plist version=\"1.0\">\n<array>\n  <dict>\n    <key>app</key>\n    <string>iwork-rs</string>\n    <key>version</key>\n    <string>0.1.0</string>\n  </dict>\n</array>\n</plist>\n"@
}

/// The written `Metadata/BuildVersionHistory.plist`.
pub fn build_version_history_plist() -> (r: Vec<u8>)
    ensures
        r@ == encode_utf8(build_version_history_text()),
{
    utf8_of(
        "<?xml version=\"1.0\" encoding=\"UTF-8\"?>\n<!DOCTYPE plist PUBLIC \"-//Apple//DTD PLIST 1.0//EN\" \"http://www.apple.com/DTDs/PropertyList-1.0.dtd\">\n<plist version=\"1.0\">\n<array>\n  <dict>\n    <key>app</key>\n    <string>iwork-rs</string>\n    <key>version</key>\n    <string>0.1.0</string>\n  </dict>\n</array>\n</plist>\n",
    )
}

} // verus!
